//! Systems of congruences, solved by the Chinese remainder construction.

use vstd::prelude::*;
use num::integer::Integer;

verus! {

/// The greatest common divisor of two positive numbers together with the
/// coefficients `x` and `y` that `num`'s `extended_gcd` finds for them, as
/// `(gcd, x, y)`.
pub uninterp spec fn bezout(a: i64, b: i64) -> (i64, i64, i64);

/// Calls `num::integer::Integer::extended_gcd` on two positive numbers.
/// Trusted: the result is what [`bezout`] names, its first part is a
/// positive common divisor of `a` and `b`, and it is the combination
/// `x * a + y * b` of the two, as the crate documents.
#[verifier::external_body]
fn extended_gcd(a: i64, b: i64) -> (r: (i64, i64, i64))
    requires
        a > 0,
        b > 0,
    ensures
        r == bezout(a, b),
        r.0 > 0,
        a % r.0 == 0,
        b % r.0 == 0,
        r.0 == r.1 * a + r.2 * b,
{
    let e = a.extended_gcd(&b);
    (e.gcd, e.x, e.y)
}

/// Whether `v` is a value of `i64`.
pub open spec fn fits(v: int) -> bool {
    i64::MIN <= v <= i64::MAX
}

/// The product of the first `k` moduli.
pub open spec fn product(moduli: Seq<i64>, k: nat) -> int
    decreases k,
{
    if k == 0 || k > moduli.len() {
        1
    } else {
        product(moduli, (k - 1) as nat) * moduli[k - 1]
    }
}

/// The weight of the congruence `i`: the product of the other moduli times
/// the coefficient that makes it 1 modulo the modulus `i` when the two have
/// no common divisor.
pub open spec fn weight(moduli: Seq<i64>, i: int) -> int {
    let n = product(moduli, moduli.len());
    let others = n / (moduli[i] as int);
    bezout(moduli[i], others as i64).2 * others
}

/// The sum of the first `k` remainders, each times its weight.
pub open spec fn weighted_sum(remainders: Seq<i64>, moduli: Seq<i64>, k: nat) -> int
    decreases k,
{
    if k == 0 || k > moduli.len() {
        0
    } else {
        weighted_sum(remainders, moduli, (k - 1) as nat) + remainders[k - 1] * weight(
            moduli,
            k - 1,
        )
    }
}

/// Whether the construction stays within `i64` at every step: the product
/// of the moduli, every weight, every remainder times its weight, and every
/// partial sum.
pub open spec fn construction_fits(remainders: Seq<i64>, moduli: Seq<i64>) -> bool {
    &&& fits(product(moduli, moduli.len()))
    &&& forall|i: int|
        0 <= i < moduli.len() ==> fits(#[trigger] weight(moduli, i)) && fits(
            remainders[i] * weight(moduli, i),
        )
    &&& forall|k: nat| k <= moduli.len() ==> fits(#[trigger] weighted_sum(remainders, moduli, k))
}

/// The product of positive numbers grows with every factor.
pub proof fn lemma_product_grows(moduli: Seq<i64>, i: nat, k: nat)
    requires
        forall|j: int| 0 <= j < moduli.len() ==> (#[trigger] moduli[j]) > 0,
        i <= k <= moduli.len(),
    ensures
        1 <= product(moduli, i) <= product(moduli, k),
    decreases k,
{
    if k == 0 {
    } else if i == k {
        lemma_product_grows(moduli, (k - 1) as nat, (k - 1) as nat);
        assert(product(moduli, (k - 1) as nat) * moduli[k - 1] >= 1) by (nonlinear_arith)
            requires
                product(moduli, (k - 1) as nat) >= 1,
                moduli[k - 1] >= 1,
        ;
    } else {
        lemma_product_grows(moduli, i, (k - 1) as nat);
        assert(product(moduli, (k - 1) as nat) * moduli[k - 1] >= product(moduli, (k - 1) as nat))
            by (nonlinear_arith)
            requires
                product(moduli, (k - 1) as nat) >= 1,
                moduli[k - 1] >= 1,
        ;
    }
}

/// Every modulus divides the product of all, and what is left is positive.
pub proof fn lemma_modulus_divides_product(moduli: Seq<i64>, i: int, k: nat)
    requires
        forall|j: int| 0 <= j < moduli.len() ==> (#[trigger] moduli[j]) > 0,
        0 <= i < k <= moduli.len(),
    ensures
        product(moduli, k) % (moduli[i] as int) == 0,
        product(moduli, k) / (moduli[i] as int) >= 1,
    decreases k,
{
    let m = moduli[i] as int;
    let last = moduli[k - 1] as int;
    let rest = product(moduli, (k - 1) as nat);
    lemma_product_grows(moduli, 0, (k - 1) as nat);
    if i == k - 1 {
        vstd::arithmetic::div_mod::lemma_fundamental_div_mod_converse(rest * m, m, rest, 0);
    } else {
        lemma_modulus_divides_product(moduli, i, (k - 1) as nat);
        let q = rest / m;
        vstd::arithmetic::div_mod::lemma_fundamental_div_mod(rest, m);
        assert(rest * last == (q * last) * m) by (nonlinear_arith)
            requires
                rest == m * q,
        ;
        vstd::arithmetic::div_mod::lemma_fundamental_div_mod_converse(rest * last, m, q * last, 0);
        assert(q * last >= 1) by (nonlinear_arith)
            requires
                q >= 1,
                last >= 1,
        ;
    }
}

/// Solves the system `x = remainders[i]` modulo `moduli[i]` by the Chinese
/// remainder construction: every remainder is weighted with the product of
/// the other moduli times a coefficient from the extended Euclidean
/// algorithm, and the sum is reduced modulo the product of all moduli.
///
/// Returns `None` when a step of the construction leaves the range of
/// `i64`.
pub fn chinese(remainders: &Vec<i64>, moduli: &Vec<i64>) -> (r: Option<i64>)
    requires
        moduli@.len() > 0,
        remainders@.len() == moduli@.len(),
        forall|j: int| 0 <= j < moduli@.len() ==> (#[trigger] moduli@[j]) > 0,
    ensures
        r.is_some() <==> construction_fits(remainders@, moduli@),
        r matches Some(x) ==> x == weighted_sum(remainders@, moduli@, moduli@.len()) % product(
            moduli@,
            moduli@.len(),
        ),
{
    let len: usize = moduli.len();
    let mut n: i64 = 1;
    let mut i: usize = 0;
    while i < len
        invariant
            i <= len,
            len == moduli@.len(),
            forall|j: int| 0 <= j < moduli@.len() ==> (#[trigger] moduli@[j]) > 0,
            n == product(moduli@, i as nat),
            n >= 1,
        decreases len - i,
    {
        match n.checked_mul(moduli[i]) {
            None => {
                proof {
                    lemma_product_grows(moduli@, (i + 1) as nat, len as nat);
                }
                return None;
            },
            Some(next) => {
                proof {
                    lemma_product_grows(moduli@, 0, (i + 1) as nat);
                }
                n = next;
            },
        }
        i += 1;
    }
    let mut sum: i64 = 0;
    let mut k: usize = 0;
    while k < len
        invariant
            k <= len,
            len == moduli@.len(),
            remainders@.len() == moduli@.len(),
            forall|j: int| 0 <= j < moduli@.len() ==> (#[trigger] moduli@[j]) > 0,
            n == product(moduli@, len as nat),
            n >= 1,
            sum == weighted_sum(remainders@, moduli@, k as nat),
            forall|j: int|
                0 <= j < k ==> fits(#[trigger] weight(moduli@, j)) && fits(
                    remainders@[j] * weight(moduli@, j),
                ),
            forall|j: nat| j <= k ==> fits(#[trigger] weighted_sum(remainders@, moduli@, j)),
        decreases len - k,
    {
        proof {
            lemma_modulus_divides_product(moduli@, k as int, len as nat);
        }
        let others: i64 = n / moduli[k];
        let e = extended_gcd(moduli[k], others);
        let ghost at = k as int;
        let weighted = match e.2.checked_mul(others) {
            None => None,
            Some(w) => remainders[k].checked_mul(w),
        };
        let next = match weighted {
            None => None,
            Some(term) => sum.checked_add(term),
        };
        match next {
            None => {
                proof {
                    assert(!fits(weight(moduli@, at)) || !fits(
                        remainders@[at] * weight(moduli@, at),
                    ) || !fits(weighted_sum(remainders@, moduli@, (k + 1) as nat)));
                }
                return None;
            },
            Some(total) => {
                sum = total;
            },
        }
        k += 1;
    }
    match sum.checked_rem_euclid(n) {
        Some(x) => Some(x),
        None => None,
    }
}

} // verus!
