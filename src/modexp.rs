//! Modular exponentiation by square-and-multiply over 64-bit operands.
use vstd::arithmetic::div_mod::*;
use vstd::arithmetic::mul::*;
use vstd::arithmetic::power::*;
use vstd::prelude::*;

verus! {

/// `b` raised to `e`, reduced modulo `m`.
pub open spec fn modexp(b: int, e: nat, m: int) -> int {
    pow(b, e) % m
}

/// The naive iterative product: start from `1 mod m` and multiply by `b`
/// `e` times, reducing modulo `m` after every multiplication.
pub open spec fn naive_modexp(b: int, e: nat, m: int) -> int
    decreases e,
{
    if e == 0 {
        1int % m
    } else {
        (naive_modexp(b, (e - 1) as nat, m) * b) % m
    }
}

/// One square-and-multiply step keeps `r * b^e (mod m)` fixed.
proof fn lemma_square_multiply_step(r: int, b: int, e: nat, m: int)
    requires
        m > 0,
        e > 0,
    ensures
        ((if e % 2 == 1 { (r * b) % m } else { r }) * pow((b * b) % m, e / 2)) % m
            == (r * pow(b, e)) % m,
{
    let k = e / 2;
    let x = pow(b * b, k);
    let r2 = if e % 2 == 1 { (r * b) % m } else { r };
    reveal(pow);
    lemma_pow_adds(b, 1, 1);
    lemma_pow1(b);
    assert(pow(b, 2) == b * b);
    lemma_pow_multiplies(b, 2, k);
    lemma_pow_adds(b, (e % 2) as nat, 2 * k);
    assert(pow(b, e) == pow(b, (e % 2) as nat) * x);
    lemma_pow_mod_noop(b * b, k, m);
    lemma_mul_mod_noop_right(r2, pow((b * b) % m, k), m);
    lemma_mul_mod_noop_right(r2, x, m);
    assert((r2 * pow((b * b) % m, k)) % m == (r2 * x) % m);
    if e % 2 == 1 {
        lemma_pow1(b);
        lemma_mul_mod_noop_left(r * b, x, m);
        lemma_mul_is_associative(r, b, x);
    } else {
        lemma_pow0(b);
    }
}

proof fn lemma_product_fits(x: u64, y: u64)
    ensures
        (x as int) * (y as int) <= u128::MAX,
{
    assert((x as int) * (y as int) <= u128::MAX) by (nonlinear_arith)
        requires
            x <= u64::MAX,
            y <= u64::MAX,
    ;
}

/// Computes `base^exp mod modulus` by repeated squaring, with every product
/// taken in 128 bits so that no intermediate value overflows.
pub fn mod_pow(base: u64, exp: u64, modulus: u64) -> (r: u64)
    requires
        modulus > 0,
    ensures
        r == modexp(base as int, exp as nat, modulus as int),
        r < modulus,
{
    if modulus == 1 {
        assert(pow(base as int, exp as nat) % 1 == 0);
        return 0;
    }
    let mut result: u64 = 1;
    let mut b: u64 = base % modulus;
    let mut e: u64 = exp;
    proof {
        lemma_pow_mod_noop(base as int, exp as nat, modulus as int);
    }
    while e > 0
        invariant
            modulus > 1,
            result < modulus,
            b < modulus,
            (result * pow(b as int, e as nat)) % (modulus as int) == modexp(
                base as int,
                exp as nat,
                modulus as int,
            ),
        decreases e,
    {
        proof {
            lemma_square_multiply_step(result as int, b as int, e as nat, modulus as int);
            lemma_product_fits(result, b);
            lemma_product_fits(b, b);
        }
        if e % 2 == 1 {
            result = ((result as u128 * b as u128) % modulus as u128) as u64;
        }
        e = e / 2;
        b = ((b as u128 * b as u128) % modulus as u128) as u64;
    }
    proof {
        lemma_pow0(b as int);
        lemma_small_mod(result as nat, modulus as nat);
    }
    result
}

/// Square-and-multiply agrees with the naive iterative product: for every
/// base, exponent and positive modulus, the value `mod_pow` returns equals
/// the result of multiplying by the base one step at a time modulo `m`.
pub proof fn lemma_modexp_matches_naive(b: int, e: nat, m: int)
    requires
        m > 0,
    ensures
        modexp(b, e, m) == naive_modexp(b, e, m),
    decreases e,
{
    reveal(pow);
    if e > 0 {
        lemma_modexp_matches_naive(b, (e - 1) as nat, m);
        lemma_mul_is_commutative(b, pow(b, (e - 1) as nat));
        lemma_mul_mod_noop_left(pow(b, (e - 1) as nat), b, m);
    }
}

/// Both parties of a key exchange reach the same secret: raising `g^a mod p`
/// to `b` gives the same residue as raising `g^b mod p` to `a`.
pub proof fn lemma_shared_secret_symmetry(g: int, a: nat, b: nat, p: int)
    requires
        p > 0,
    ensures
        modexp(modexp(g, a, p), b, p) == modexp(modexp(g, b, p), a, p),
{
    lemma_pow_mod_noop(pow(g, a), b, p);
    lemma_pow_mod_noop(pow(g, b), a, p);
    lemma_pow_multiplies(g, a, b);
    lemma_pow_multiplies(g, b, a);
    lemma_mul_is_commutative(a as int, b as int);
}

} // verus!
