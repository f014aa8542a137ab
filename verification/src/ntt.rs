//! Number-theoretic transform engine: modulus and root selection
//! (`working_modulus`), and the forward and inverse transforms over a prime
//! modulus, together with the modular arithmetic they rest on.

use vstd::prelude::*;
use rayon::iter::IndexedParallelIterator;
use rayon::iter::IntoParallelRefMutIterator;
use rayon::iter::ParallelIterator;

verus! {

use crate::polynomial::as_ints;
use crate::polynomial::spec_is_pow2;

use vstd::arithmetic::div_mod::lemma_mod_bound;
use vstd::arithmetic::div_mod::lemma_add_mod_noop;
use vstd::arithmetic::div_mod::lemma_fundamental_div_mod;
use vstd::arithmetic::power::pow;
use vstd::arithmetic::power::lemma_pow0;
use vstd::arithmetic::power::lemma_pow1;

/// Every working modulus is kept below this cap, so that a product of two
/// residues always fits comfortably in an `i128`.
pub const MODULUS_CAP: i128 = 0x8000_0000;

/// The modulus, root-of-unity data and inverses a transform of one fixed
/// length needs; derived per multiplication by `working_modulus`.
#[derive(Debug, Clone, Copy)]
pub struct Constants {
    /// The working prime modulus.
    pub modulus: i128,
    /// A primitive root of unity modulo `modulus` whose order is the
    /// transform length.
    pub root: i128,
    /// The modular inverse of `root`.
    pub root_inv: i128,
    /// The modular inverse of the transform length.
    pub len_inv: i128,
}

/// Reduces `x` into the canonical range `[0, p)`.
pub fn mod_reduce(x: i128, p: i128) -> (r: i128)
    requires
        1 < p,
        p <= MODULUS_CAP,
    ensures
        r as int == (x as int) % (p as int),
        0 <= r < p,
{
    if x >= 0 {
        proof {
            lemma_mod_bound(x as int, p as int);
        }
        x % p
    } else {
        let y: i128 = -(x + 1);
        let t: i128 = y % p;
        proof {
            lemma_mod_bound(y as int, p as int);
            lemma_fundamental_div_mod(y as int, p as int);
            let u: int = (y as int) / (p as int);
            let m: int = (y as int) % (p as int);
            assert(x as int == (-u - 1) * (p as int) + ((p as int) - 1 - m)) by (nonlinear_arith)
                requires
                    y as int == (p as int) * u + m,
                    x as int == -(y as int) - 1,
            ;
            vstd::arithmetic::div_mod::lemma_fundamental_div_mod_converse_mod(
                x as int,
                p as int,
                -u - 1,
                (p as int) - 1 - m,
            );
        }
        p - 1 - t
    }
}

/// The product of two residues, reduced.
pub fn mul_mod(a: i128, b: i128, p: i128) -> (r: i128)
    requires
        1 < p <= MODULUS_CAP,
        0 <= a < p,
        0 <= b < p,
    ensures
        r as int == ((a as int) * (b as int)) % (p as int),
        0 <= r < p,
{
    proof {
        assert(0 <= (a as int) * (b as int) < 0x4000_0000_0000_0000)
            by (nonlinear_arith)
            requires
                0 <= a < p,
                0 <= b < p,
                p <= 0x8000_0000,
        ;
        lemma_mod_bound((a as int) * (b as int), p as int);
    }
    (a * b) % p
}

/// The sum of two residues, reduced.
pub fn add_mod(a: i128, b: i128, p: i128) -> (r: i128)
    requires
        1 < p <= MODULUS_CAP,
        0 <= a < p,
        0 <= b < p,
    ensures
        r as int == ((a as int) + (b as int)) % (p as int),
        0 <= r < p,
{
    proof {
        lemma_mod_bound((a as int) + (b as int), p as int);
    }
    (a + b) % p
}

/// `b` raised to the `e`-th power, modulo `p`.
pub fn pow_mod(b: i128, e: u64, p: i128) -> (r: i128)
    requires
        1 < p <= MODULUS_CAP,
        0 <= b < p,
    ensures
        r as int == pow(b as int, e as nat) % (p as int),
        0 <= r < p,
{
    let mut r: i128 = 1;
    let mut i: u64 = 0;
    proof {
        lemma_pow0(b as int);
        lemma_mod_bound(1int, p as int);
        assert(pow(b as int, 0) % (p as int) == 1int % (p as int));
        assert(1int % (p as int) == 1) by {
            vstd::arithmetic::div_mod::lemma_small_mod(1nat, p as nat);
        }
    }
    while i < e
        invariant
            0 <= i <= e,
            1 < p <= MODULUS_CAP,
            0 <= b < p,
            0 <= r < p,
            r as int == pow(b as int, i as nat) % (p as int),
        decreases e - i,
    {
        proof {
            assert(pow(b as int, (i + 1) as nat) == (b as int) * pow(b as int, i as nat)) by {
                lemma_pow1(b as int);
                vstd::arithmetic::power::lemma_pow_adds(b as int, 1nat, i as nat);
            }
            vstd::arithmetic::div_mod::lemma_mul_mod_noop_right(
                b as int,
                pow(b as int, i as nat),
                p as int,
            );
        }
        r = mul_mod(b, r, p);
        i = i + 1;
    }
    r
}

/// Whether every entry of `y` is a canonical residue modulo `p`.
pub open spec fn residues(y: Seq<int>, p: int) -> bool {
    forall|i: int| 0 <= i < y.len() ==> 0 <= #[trigger] y[i] < p
}

/// The first `k` terms of the evaluation of `y` at the point `t`, entry `j`
/// weighted by `t` to the `j`-th power.
pub open spec fn eval_prefix(y: Seq<int>, t: int, k: int) -> int
    decreases k,
{
    if k <= 0 {
        0
    } else {
        eval_prefix(y, t, k - 1) + y[k - 1] * pow(t, (k - 1) as nat)
    }
}

/// The full evaluation of `y` at the point `t`.
pub open spec fn eval_at(y: Seq<int>, t: int) -> int {
    eval_prefix(y, t, y.len() as int)
}

/// The forward transform: entry `i` is the evaluation of `y` at the `i`-th
/// power of the root, reduced modulo the modulus.
pub open spec fn spec_forward(y: Seq<int>, c: Constants) -> Seq<int> {
    Seq::new(
        y.len(),
        |i: int|
            eval_at(y, pow(c.root as int, i as nat) % (c.modulus as int)) % (c.modulus as int),
    )
}

/// The inverse transform: the forward transform taken with the inverse
/// root, with every entry then scaled by the inverse of the length.
pub open spec fn spec_inverse(y: Seq<int>, c: Constants) -> Seq<int> {
    Seq::new(
        y.len(),
        |i: int|
            ((c.len_inv as int) * (eval_at(
                y,
                pow(c.root_inv as int, i as nat) % (c.modulus as int),
            ) % (c.modulus as int))) % (c.modulus as int),
    )
}

/// Primality by the direct definition: no divisor strictly between 1 and `p`.
pub open spec fn spec_prime(p: int) -> bool {
    p >= 2 && forall|d: int| 2 <= d < p ==> #[trigger] (p % d) != 0
}

/// Whether `h` is a root of unity of order exactly `n` modulo `p`, for `n` a
/// power of two: its `n`-th power is 1, and for `n > 1` its `n/2`-th power
/// is `p - 1`, so no proper power-of-two divisor of `n` is already an order.
pub open spec fn good_root(h: int, n: int, p: int) -> bool {
    1 <= h < p && pow(h, n as nat) % p == 1 && (n > 1 ==> pow(h, (n / 2) as nat) % p == p - 1)
}

/// Whether `x` has a multiplicative inverse modulo `p`.
pub open spec fn has_inv(x: int, p: int) -> bool {
    exists|y: int| 1 <= y < p && #[trigger] ((x * y) % p) == 1
}

/// What the modulus search accepts for transform length `n` and coefficient
/// bound `m`: a prime above `m`, congruent to 1 modulo `n`, with an order-`n`
/// root of unity that is invertible, the length itself invertible too.
pub open spec fn usable_modulus(p: int, n: int, m: int) -> bool {
    spec_prime(p) && p > m && p % n == 1int % n && (exists|h: int|
        #[trigger] good_root(h, n, p) && has_inv(h, p)) && has_inv(n, p)
}

/// Whether `c` carries everything a length-`n` transform pair needs: a prime
/// modulus congruent to 1 modulo `n`, an order-`n` root of unity, and the
/// modular inverses of the root and of `n`.
pub open spec fn constants_valid(c: Constants, n: int) -> bool {
    1 < (c.modulus as int) <= MODULUS_CAP && spec_prime(c.modulus as int) && (c.modulus as int) % n
        == 1int % n && good_root(c.root as int, n, c.modulus as int) && 1 <= c.root_inv < c.modulus
        && ((c.root as int) * (c.root_inv as int)) % (c.modulus as int) == 1 && 1 <= c.len_inv
        < c.modulus && (n * (c.len_inv as int)) % (c.modulus as int) == 1
}

/// Evaluates `v` at the successive powers of `g` modulo `p`: the shared core
/// of the forward and inverse transforms.
fn dft_core(v: &Vec<i128>, g: i128, p: i128) -> (r: Vec<i128>)
    requires
        1 < p <= MODULUS_CAP,
        0 <= g < p,
        residues(as_ints(v@), p as int),
    ensures
        r@.len() == v@.len(),
        forall|i: int|
            0 <= i < r@.len() ==> (#[trigger] r@[i]) as int == eval_at(
                as_ints(v@),
                pow(g as int, i as nat) % (p as int),
            ) % (p as int),
        residues(as_ints(r@), p as int),
{
    let ghost y: Seq<int> = as_ints(v@);
    let n: usize = v.len();
    let mut out: Vec<i128> = Vec::new();
    let mut i: usize = 0;
    while i < n
        invariant
            0 <= i <= n,
            n == v@.len(),
            y == as_ints(v@),
            1 < p <= MODULUS_CAP,
            0 <= g < p,
            residues(y, p as int),
            out@.len() == i,
            forall|k: int|
                0 <= k < i ==> (#[trigger] out@[k]) as int == eval_at(
                    y,
                    pow(g as int, k as nat) % (p as int),
                ) % (p as int),
            forall|k: int| 0 <= k < i ==> 0 <= #[trigger] out@[k] < p,
        decreases n - i,
    {
        let t: i128 = pow_mod(g, i as u64, p);
        let mut acc: i128 = 0;
        let mut pw: i128 = 1;
        let mut j: usize = 0;
        proof {
            vstd::arithmetic::div_mod::lemma_small_mod(0nat, p as nat);
            vstd::arithmetic::div_mod::lemma_small_mod(1nat, p as nat);
            lemma_pow0(t as int);
        }
        while j < n
            invariant
                0 <= j <= n,
                n == v@.len(),
                y == as_ints(v@),
                1 < p <= MODULUS_CAP,
                residues(y, p as int),
                0 <= t < p,
                0 <= acc < p,
                0 <= pw < p,
                acc as int == eval_prefix(y, t as int, j as int) % (p as int),
                pw as int == pow(t as int, j as nat) % (p as int),
            decreases n - j,
        {
            proof {
                assert(y[j as int] == v@[j as int] as int);
            }
            let term: i128 = mul_mod(v[j], pw, p);
            proof {
                vstd::arithmetic::div_mod::lemma_mul_mod_noop_right(
                    y[j as int],
                    pow(t as int, j as nat),
                    p as int,
                );
                lemma_add_mod_noop(
                    eval_prefix(y, t as int, j as int),
                    y[j as int] * pow(t as int, j as nat),
                    p as int,
                );
                assert(eval_prefix(y, t as int, j as int + 1) == eval_prefix(y, t as int, j as int)
                    + y[j as int] * pow(t as int, j as nat));
            }
            acc = add_mod(acc, term, p);
            proof {
                assert(pow(t as int, (j + 1) as nat) == pow(t as int, j as nat) * (t as int)) by {
                    lemma_pow1(t as int);
                    vstd::arithmetic::power::lemma_pow_adds(t as int, j as nat, 1nat);
                }
                vstd::arithmetic::div_mod::lemma_mul_mod_noop_left(
                    pow(t as int, j as nat),
                    t as int,
                    p as int,
                );
            }
            pw = mul_mod(pw, t, p);
            j = j + 1;
        }
        out.push(acc);
        i = i + 1;
    }
    out
}

/// The forward transform: evaluates the coefficient sequence at the `n`
/// distinct powers of the root of unity, modulo the working modulus. The
/// length must be a power of two.
pub fn forward(v: Vec<i128>, c: &Constants) -> (r: Vec<i128>)
    requires
        1 < c.modulus <= MODULUS_CAP,
        0 <= c.root < c.modulus,
        residues(as_ints(v@), c.modulus as int),
        spec_is_pow2(v@.len() as int),
    ensures
        as_ints(r@) == spec_forward(as_ints(v@), *c),
        r@.len() == v@.len(),
        residues(as_ints(r@), c.modulus as int),
{
    let r = dft_core(&v, c.root, c.modulus);
    proof {
        assert(as_ints(r@) =~= spec_forward(as_ints(v@), *c));
    }
    r
}

/// The inverse transform: structurally the forward transform taken with the
/// inverse root, followed by scaling every entry by the inverse of the
/// length. The length must be a power of two.
pub fn inverse(v: Vec<i128>, c: &Constants) -> (r: Vec<i128>)
    requires
        1 < c.modulus <= MODULUS_CAP,
        0 <= c.root_inv < c.modulus,
        0 <= c.len_inv < c.modulus,
        residues(as_ints(v@), c.modulus as int),
        spec_is_pow2(v@.len() as int),
    ensures
        as_ints(r@) == spec_inverse(as_ints(v@), *c),
        r@.len() == v@.len(),
        residues(as_ints(r@), c.modulus as int),
{
    let w = dft_core(&v, c.root_inv, c.modulus);
    let n: usize = w.len();
    let mut out: Vec<i128> = Vec::new();
    let mut k: usize = 0;
    while k < n
        invariant
            0 <= k <= n,
            n == w@.len(),
            1 < c.modulus <= MODULUS_CAP,
            0 <= c.len_inv < c.modulus,
            forall|i: int| 0 <= i < n ==> 0 <= #[trigger] w@[i] < c.modulus,
            out@.len() == k,
            forall|i: int|
                0 <= i < k ==> (#[trigger] out@[i]) as int == ((c.len_inv as int) * (w@[i] as int))
                    % (c.modulus as int),
            forall|i: int| 0 <= i < k ==> 0 <= #[trigger] out@[i] < c.modulus,
        decreases n - k,
    {
        let s: i128 = mul_mod(c.len_inv, w[k], c.modulus);
        out.push(s);
        k = k + 1;
    }
    proof {
        assert(as_ints(out@) =~= spec_inverse(as_ints(v@), *c));
    }
    out
}

/// The pointwise modular product of two transformed sequences: the
/// embarrassingly parallel step, split across workers by index.
///
/// Relies on rayon's `IntoParallelRefMutIterator::par_iter_mut`,
/// `IndexedParallelIterator::enumerate` and `ParallelIterator::for_each`:
/// together they run the closure exactly once for every index of the output
/// buffer, each worker exclusively owning the entry it writes; the closure
/// itself only calls the verified `mul_mod`.
#[verifier::external_body]
pub(crate) fn pointwise_mod_mul(a: &Vec<i128>, b: &Vec<i128>, p: i128) -> (r: Vec<i128>)
    requires
        1 < p <= MODULUS_CAP,
        a@.len() == b@.len(),
        residues(as_ints(a@), p as int),
        residues(as_ints(b@), p as int),
    ensures
        r@.len() == a@.len(),
        forall|i: int|
            0 <= i < r@.len() ==> (#[trigger] r@[i]) as int == ((a@[i] as int) * (b@[i] as int)) % (
            p as int),
        residues(as_ints(r@), p as int),
{
    let mut out: Vec<i128> = vec![0; a.len()];
    out.par_iter_mut().enumerate().for_each(|(i, x)| *x = mul_mod(a[i], b[i], p));
    out
}

/// Whether `p` is prime, by trial division.
pub fn is_prime(p: i128) -> (r: bool)
    requires
        2 <= p <= MODULUS_CAP,
    ensures
        r == spec_prime(p as int),
{
    let mut d: i128 = 2;
    while d < p
        invariant
            2 <= d <= p,
            2 <= p <= MODULUS_CAP,
            forall|e: int| 2 <= e < d ==> #[trigger] ((p as int) % e) != 0,
        decreases p - d,
    {
        proof {
            lemma_mod_bound(p as int, d as int);
        }
        if p % d == 0 {
            return false;
        }
        d = d + 1;
    }
    true
}

/// The least multiplicative inverse of `x` modulo `p`, by search; `None`
/// exactly when `x` has none.
pub fn find_inverse(x: i128, p: i128) -> (r: Option<i128>)
    requires
        1 < p <= MODULUS_CAP,
        0 <= x < p,
    ensures
        match r {
            Some(y) => 1 <= y < p && ((x as int) * (y as int)) % (p as int) == 1 && forall|y2: int|
                1 <= y2 < y ==> #[trigger] (((x as int) * y2) % (p as int)) != 1,
            None => !has_inv(x as int, p as int),
        },
{
    let mut y: i128 = 1;
    while y < p
        invariant
            1 <= y <= p,
            1 < p <= MODULUS_CAP,
            0 <= x < p,
            forall|y2: int| 1 <= y2 < y ==> #[trigger] (((x as int) * y2) % (p as int)) != 1,
        decreases p - y,
    {
        if mul_mod(x, y, p) == 1 {
            return Some(y);
        }
        y = y + 1;
    }
    proof {
        if has_inv(x as int, p as int) {
            let y0 = choose|y0: int| 1 <= y0 < p && #[trigger] (((x as int) * y0) % (p as int))
                == 1;
            assert(((x as int) * y0) % (p as int) != 1);
        }
    }
    None
}

/// The least order-`n` root of unity modulo `p` that has an inverse,
/// together with that inverse; `None` exactly when no invertible root of
/// order `n` exists.
pub fn find_root_with_inv(n: u64, p: i128) -> (r: Option<(i128, i128)>)
    requires
        1 < p <= MODULUS_CAP,
        1 <= n,
    ensures
        match r {
            Some(hy) => good_root(hy.0 as int, n as int, p as int) && 1 <= hy.1 < p && ((
            hy.0 as int) * (hy.1 as int)) % (p as int) == 1 && forall|h2: int|
                1 <= h2 < hy.0 ==> !(#[trigger] good_root(h2, n as int, p as int) && has_inv(
                    h2,
                    p as int,
                )),
            None => !(exists|h: int| #[trigger] good_root(h, n as int, p as int) && has_inv(
                h,
                p as int,
            )),
        },
{
    let mut h: i128 = 1;
    while h < p
        invariant
            1 <= h <= p,
            1 < p <= MODULUS_CAP,
            1 <= n,
            forall|h2: int|
                1 <= h2 < h ==> !(#[trigger] good_root(h2, n as int, p as int) && has_inv(
                    h2,
                    p as int,
                )),
        decreases p - h,
    {
        let ok: bool = if pow_mod(h, n, p) == 1 {
            if n == 1 {
                true
            } else {
                pow_mod(h, n / 2, p) == p - 1
            }
        } else {
            false
        };
        if ok {
            match find_inverse(h, p) {
                Some(y) => {
                    return Some((h, y));
                },
                None => {},
            }
        }
        h = h + 1;
    }
    proof {
        if exists|h0: int| #[trigger] good_root(h0, n as int, p as int) && has_inv(h0, p as int) {
            let h0 = choose|h0: int| #[trigger] good_root(h0, n as int, p as int) && has_inv(
                h0,
                p as int,
            );
            assert(!(good_root(h0, n as int, p as int) && has_inv(h0, p as int)));
        }
    }
    None
}

/// The sum of the first `k` powers of `h` taken with stride `d`:
/// `h^0 + h^d + h^(2d) + ...`.
pub open spec fn psum(h: int, d: nat, k: nat) -> int
    decreases k,
{
    if k == 0 {
        0
    } else {
        psum(h, d, (k - 1) as nat) + pow(h, d * ((k - 1) as nat))
    }
}

/// With stride zero every term is one, so the sum counts the terms.
proof fn lemma_psum_stride_zero(h: int, k: nat)
    ensures
        psum(h, 0, k) == k,
    decreases k,
{
    if k > 0 {
        lemma_psum_stride_zero(h, (k - 1) as nat);
        lemma_pow0(h);
    }
}

/// Splitting a stride sum after `m` terms: the tail of `i` further terms is
/// the head sum scaled by `h^(d * m)`.
proof fn lemma_psum_split(h: int, d: nat, m: nat, i: nat)
    ensures
        psum(h, d, m + i) == psum(h, d, m) + pow(h, d * m) * psum(h, d, i),
    decreases i,
{
    if i == 0 {
        assert(psum(h, d, 0) == 0);
        assert(pow(h, d * m) * 0 == 0) by (nonlinear_arith);
    } else {
        let i1 = (i - 1) as nat;
        lemma_psum_split(h, d, m, i1);
        assert(pow(h, d * (m + i1)) == pow(h, d * m) * pow(h, d * i1)) by {
            assert(d * (m + i1) == d * m + d * i1) by (nonlinear_arith);
            vstd::arithmetic::power::lemma_pow_adds(h, d * m, d * i1);
        }
        assert(pow(h, d * m) * psum(h, d, i1) + pow(h, d * m) * pow(h, d * i1) == pow(h, d * m) * (
        psum(h, d, i1) + pow(h, d * i1))) by (nonlinear_arith);
    }
}

/// A stride sum in base `h` with even stride is the same sum in base `h^2`
/// with half the stride.
proof fn lemma_psum_base_square(h: int, d: nat, k: nat)
    requires
        d % 2 == 0,
    ensures
        psum(h, d, k) == psum(h * h, d / 2, k),
    decreases k,
{
    if k > 0 {
        let k1 = (k - 1) as nat;
        lemma_psum_base_square(h, d, k1);
        assert(pow(h, d * k1) == pow(h * h, (d / 2) * k1)) by {
            assert(h * h == pow(h, 2)) by {
                vstd::arithmetic::power::lemma_square_is_pow2(h);
            }
            vstd::arithmetic::power::lemma_pow_multiplies(h, 2, (d / 2) * k1);
            assert(2 * ((d / 2) * k1) == d * k1) by (nonlinear_arith)
                requires
                    d % 2 == 0,
            ;
        }
    }
}

/// Powers of `p - 1` modulo `p` alternate between 1 and `p - 1`.
proof fn lemma_pow_neg_one(d: nat, p: int)
    requires
        1 < p,
    ensures
        pow(p - 1, d) % p == if d % 2 == 0 {
            1int % p
        } else {
            p - 1
        },
    decreases d,
{
    vstd::arithmetic::div_mod::lemma_small_mod(1nat, p as nat);
    if d == 0 {
        lemma_pow0(p - 1);
    } else {
        let d1 = (d - 1) as nat;
        lemma_pow_neg_one(d1, p);
        assert(pow(p - 1, d) == (p - 1) * pow(p - 1, d1)) by {
            lemma_pow1(p - 1);
            vstd::arithmetic::power::lemma_pow_adds(p - 1, 1nat, d1);
        }
        vstd::arithmetic::div_mod::lemma_mul_mod_noop_right(p - 1, pow(p - 1, d1), p);
        vstd::arithmetic::div_mod::lemma_small_mod((p - 1) as nat, p as nat);
        if d1 % 2 == 0 {
            assert(((p - 1) * 1) % p == p - 1);
        } else {
            assert(((p - 1) * (p - 1)) % p == 1int % p) by {
                assert((p - 1) * (p - 1) == (p - 2) * p + 1) by (nonlinear_arith);
                vstd::arithmetic::div_mod::lemma_fundamental_div_mod_converse_mod(
                    (p - 1) * (p - 1),
                    p,
                    p - 2,
                    1,
                );
            }
        }
    }
}

/// The cancellation at the heart of transform inversion: summing the powers
/// of an order-`n` root of unity with any stride that is not a multiple of
/// `n` gives zero modulo `p`, for `n` a power of two.
proof fn lemma_psum_cancel(h: int, d: nat, n: nat, p: int)
    requires
        1 < p,
        spec_is_pow2(n as int),
        0 < d < n,
        pow(h, n) % p == 1,
        pow(h, (n / 2) as nat) % p == p - 1,
    ensures
        psum(h, d, n) % p == 0,
    decreases n,
{
    let m = (n / 2) as nat;
    lemma_psum_split(h, d, m, m);
    assert(m + m == n);
    assert(psum(h, d, n) == psum(h, d, m) * (1 + pow(h, d * m))) by (nonlinear_arith)
        requires
            psum(h, d, n) == psum(h, d, m) + pow(h, d * m) * psum(h, d, m),
    ;
    if d % 2 == 1 {
        // Odd stride: h^(d * n/2) is -1, so the two halves cancel pairwise.
        assert(pow(h, d * m) % p == p - 1) by {
            assert(pow(h, d * m) == pow(pow(h, m), d)) by {
                vstd::arithmetic::power::lemma_pow_multiplies(h, m, d);
                assert(m * d == d * m) by (nonlinear_arith);
            }
            vstd::arithmetic::power::lemma_pow_mod_noop(pow(h, m), d, p);
            lemma_pow_neg_one(d, p);
            assert(pow(pow(h, m) % p, d) % p == pow(p - 1, d) % p);
        }
        assert((1 + pow(h, d * m)) % p == 0) by {
            lemma_add_mod_noop(1, pow(h, d * m), p);
            vstd::arithmetic::div_mod::lemma_small_mod(1nat, p as nat);
            vstd::arithmetic::div_mod::lemma_mod_self_0(p);
        }
        vstd::arithmetic::div_mod::lemma_mul_mod_noop_right(psum(h, d, m), 1 + pow(h, d * m), p);
        assert((psum(h, d, m) * 0) % p == 0) by {
            assert(psum(h, d, m) * 0 == 0) by (nonlinear_arith);
            vstd::arithmetic::div_mod::lemma_small_mod(0nat, p as nat);
        }
    } else {
        // Even stride: h^(d * n/2) is 1, and the halved problem recurses on
        // the squared base.
        assert(n >= 2);
        assert(spec_is_pow2(m as int));
        assert(pow(h, d * m) % p == 1int % p) by {
            assert(pow(h, d * m) == pow(pow(h, n), (d / 2) as nat)) by {
                vstd::arithmetic::power::lemma_pow_multiplies(h, n, (d / 2) as nat);
                assert(n * (d / 2) == d * m) by (nonlinear_arith)
                    requires
                        d % 2 == 0,
                        m == n / 2,
                        n % 2 == 0,
                ;
            }
            vstd::arithmetic::power::lemma_pow_mod_noop(pow(h, n), (d / 2) as nat, p);
            vstd::arithmetic::power::lemma1_pow((d / 2) as nat);
            assert(pow(pow(h, n) % p, (d / 2) as nat) == 1);
        }
        vstd::arithmetic::div_mod::lemma_small_mod(1nat, p as nat);
        lemma_psum_base_square(h, d, m);
        // Conditions for the squared base at half the length.
        assert(m >= 2) by {
            if m == 1 {
                assert(d == 0 || d == 1);
            }
        }
        assert(pow(h * h, m) == pow(h, n)) by {
            assert(h * h == pow(h, 2)) by {
                vstd::arithmetic::power::lemma_square_is_pow2(h);
            }
            vstd::arithmetic::power::lemma_pow_multiplies(h, 2, m);
            assert(2 * m == n);
        }
        assert(pow(h * h, (m / 2) as nat) == pow(h, m)) by {
            assert(h * h == pow(h, 2)) by {
                vstd::arithmetic::power::lemma_square_is_pow2(h);
            }
            vstd::arithmetic::power::lemma_pow_multiplies(h, 2, (m / 2) as nat);
            assert(2 * (m / 2) == m) by {
                assert(spec_is_pow2(m as int) && m >= 2 ==> m % 2 == 0);
            }
        }
        lemma_psum_cancel(h * h, (d / 2) as nat, m, p);
        // The whole sum is twice a multiple of p, still a multiple of p.
        assert(psum(h, d, n) % p == 0) by {
            vstd::arithmetic::div_mod::lemma_mul_mod_noop_right(
                psum(h, d, m),
                1 + pow(h, d * m),
                p,
            );
            assert((1 + pow(h, d * m)) % p == 2int % p) by {
                lemma_add_mod_noop(1, pow(h, d * m), p);
                lemma_add_mod_noop(1, 1, p);
                vstd::arithmetic::div_mod::lemma_small_mod(1nat, p as nat);
            }
            vstd::arithmetic::div_mod::lemma_mul_mod_noop_general(psum(h, d, m), 2, p);
            assert((psum(h, d, m) % p) * 2 == 0) by (nonlinear_arith)
                requires
                    psum(h, d, m) % p == 0,
            ;
            vstd::arithmetic::div_mod::lemma_small_mod(0nat, p as nat);
        }
    }
}

/// The pointwise sum of two sequences of the same length.
pub open spec fn seq_sum(a: Seq<int>, b: Seq<int>) -> Seq<int> {
    Seq::new(a.len(), |i: int| a[i] + b[i])
}

/// A sequence of length `n` that is zero except for `v` at index `j`.
pub open spec fn unit_seq(n: int, j: int, v: int) -> Seq<int> {
    Seq::new(n as nat, |t: int| if t == j { v } else { 0 })
}

/// Evaluation is linear in the coefficient sequence.
pub proof fn lemma_eval_prefix_linear(a: Seq<int>, b: Seq<int>, t: int, k: int)
    requires
        a.len() == b.len(),
        0 <= k <= a.len(),
    ensures
        eval_prefix(seq_sum(a, b), t, k) == eval_prefix(a, t, k) + eval_prefix(b, t, k),
    decreases k,
{
    if k > 0 {
        lemma_eval_prefix_linear(a, b, t, k - 1);
        assert(seq_sum(a, b)[k - 1] == a[k - 1] + b[k - 1]);
        assert((a[k - 1] + b[k - 1]) * pow(t, (k - 1) as nat) == a[k - 1] * pow(t, (k - 1) as nat)
            + b[k - 1] * pow(t, (k - 1) as nat)) by (nonlinear_arith);
    }
}

/// Sequences with congruent entries have congruent evaluations.
pub proof fn lemma_eval_prefix_congruent(a: Seq<int>, b: Seq<int>, t: int, k: int, p: int)
    requires
        1 < p,
        a.len() == b.len(),
        0 <= k <= a.len(),
        forall|i: int| 0 <= i < k ==> #[trigger] (a[i] % p) == b[i] % p,
    ensures
        eval_prefix(a, t, k) % p == eval_prefix(b, t, k) % p,
    decreases k,
{
    if k > 0 {
        lemma_eval_prefix_congruent(a, b, t, k - 1, p);
        let w = pow(t, (k - 1) as nat);
        assert((a[k - 1] * w) % p == (b[k - 1] * w) % p) by {
            vstd::arithmetic::div_mod::lemma_mul_mod_noop_left(a[k - 1], w, p);
            vstd::arithmetic::div_mod::lemma_mul_mod_noop_left(b[k - 1], w, p);
        }
        lemma_add_mod_noop(eval_prefix(a, t, k - 1), a[k - 1] * w, p);
        lemma_add_mod_noop(eval_prefix(b, t, k - 1), b[k - 1] * w, p);
    }
}

/// Evaluating a sequence with a single nonzero entry picks out one power of
/// the point.
proof fn lemma_eval_unit(n: int, j: int, v: int, t: int, k: int)
    requires
        0 <= j < n,
        0 <= k <= n,
    ensures
        eval_prefix(unit_seq(n, j, v), t, k) == if j < k {
            v * pow(t, j as nat)
        } else {
            0
        },
    decreases k,
{
    if k > 0 {
        lemma_eval_unit(n, j, v, t, k - 1);
        if j != k - 1 {
            assert(unit_seq(n, j, v)[k - 1] == 0);
            assert(0 * pow(t, (k - 1) as nat) == 0) by (nonlinear_arith);
        }
    }
}

/// An evaluation whose weighted terms are congruent to the terms of a
/// stride sum, scaled by `v`, is congruent to `v` times that stride sum.
proof fn lemma_eval_prefix_psum(f: Seq<int>, t: int, hh: int, d: nat, p: int, v: int, k: int)
    requires
        1 < p,
        0 <= k <= f.len(),
        forall|i: int|
            0 <= i < k ==> #[trigger] ((f[i] * pow(t, i as nat)) % p) == (v * pow(hh, d * (
            i as nat))) % p,
    ensures
        eval_prefix(f, t, k) % p == (v * psum(hh, d, k as nat)) % p,
    decreases k,
{
    if k > 0 {
        lemma_eval_prefix_psum(f, t, hh, d, p, v, k - 1);
        let prev = eval_prefix(f, t, k - 1);
        let term = f[k - 1] * pow(t, (k - 1) as nat);
        lemma_add_mod_noop(prev, term, p);
        lemma_add_mod_noop(v * psum(hh, d, (k - 1) as nat), v * pow(hh, d * ((k - 1) as nat)), p);
        assert(v * psum(hh, d, (k - 1) as nat) + v * pow(hh, d * ((k - 1) as nat)) == v * psum(
            hh,
            d,
            k as nat,
        )) by (nonlinear_arith)
            requires
                psum(hh, d, k as nat) == psum(hh, d, (k - 1) as nat) + pow(
                    hh,
                    d * ((k - 1) as nat),
                ),
        ;
    }
}

/// Evaluation prefixes only look at the entries below the cut.
pub proof fn lemma_eval_prefix_ext(a: Seq<int>, b: Seq<int>, t: int, k: int)
    requires
        0 <= k <= a.len(),
        k <= b.len(),
        forall|i: int| 0 <= i < k ==> a[i] == b[i],
    ensures
        eval_prefix(a, t, k) == eval_prefix(b, t, k),
    decreases k,
{
    if k > 0 {
        lemma_eval_prefix_ext(a, b, t, k - 1);
    }
}

/// A sequence that is zero below some index evaluates, over its prefixes,
/// to the evaluation of the nonzero block scaled by one power of the point.
pub proof fn lemma_eval_prefix_split(f: Seq<int>, s: Seq<int>, t: int, cut: int, j: int)
    requires
        0 <= cut,
        0 <= j,
        cut + j <= f.len(),
        s.len() == f.len() - cut,
        forall|i: int| 0 <= i < s.len() ==> s[i] == f[cut + i],
    ensures
        eval_prefix(f, t, cut + j) == eval_prefix(f, t, cut) + pow(t, cut as nat) * eval_prefix(
            s,
            t,
            j,
        ),
    decreases j,
{
    if j == 0 {
        assert(pow(t, cut as nat) * 0 == 0) by (nonlinear_arith);
    } else {
        lemma_eval_prefix_split(f, s, t, cut, j - 1);
        let j1 = j - 1;
        assert(f[cut + j1] == s[j1]);
        assert(pow(t, (cut + j1) as nat) == pow(t, cut as nat) * pow(t, j1 as nat)) by {
            vstd::arithmetic::power::lemma_pow_adds(t, cut as nat, j1 as nat);
        }
        assert(eval_prefix(f, t, cut + j) == eval_prefix(f, t, cut + j1) + s[j1] * (pow(
            t,
            cut as nat,
        ) * pow(t, j1 as nat)));
        assert(eval_prefix(f, t, cut) + pow(t, cut as nat) * eval_prefix(s, t, j1) + s[j1] * (pow(
            t,
            cut as nat,
        ) * pow(t, j1 as nat)) == eval_prefix(f, t, cut) + pow(t, cut as nat) * (eval_prefix(
            s,
            t,
            j1,
        ) + s[j1] * pow(t, j1 as nat))) by (nonlinear_arith);
    }
}

/// A prefix of zeros evaluates to zero.
pub proof fn lemma_eval_prefix_zero(f: Seq<int>, t: int, k: int)
    requires
        0 <= k <= f.len(),
        forall|i: int| 0 <= i < k ==> f[i] == 0,
    ensures
        eval_prefix(f, t, k) == 0,
    decreases k,
{
    if k > 0 {
        lemma_eval_prefix_zero(f, t, k - 1);
        assert(0 * pow(t, (k - 1) as nat) == 0) by (nonlinear_arith);
    }
}

/// Zero entries between two cuts leave the evaluation unchanged.
pub proof fn lemma_eval_prefix_zero_tail(f: Seq<int>, t: int, from: int, to: int)
    requires
        0 <= from <= to <= f.len(),
        forall|i: int| from <= i < to ==> f[i] == 0,
    ensures
        eval_prefix(f, t, to) == eval_prefix(f, t, from),
    decreases to - from,
{
    if to > from {
        lemma_eval_prefix_zero_tail(f, t, from, to - 1);
        assert(0 * pow(t, (to - 1) as nat) == 0) by (nonlinear_arith);
    }
}

/// Scaling every entry scales the evaluation.
pub proof fn lemma_eval_prefix_scaled(f: Seq<int>, b: Seq<int>, v: int, t: int, k: int)
    requires
        0 <= k <= f.len(),
        k <= b.len(),
        forall|i: int| 0 <= i < k ==> f[i] == v * b[i],
    ensures
        eval_prefix(f, t, k) == v * eval_prefix(b, t, k),
    decreases k,
{
    if k == 0 {
        assert(v * 0 == 0) by (nonlinear_arith);
    } else {
        lemma_eval_prefix_scaled(f, b, v, t, k - 1);
        assert(v * eval_prefix(b, t, k - 1) + (v * b[k - 1]) * pow(t, (k - 1) as nat) == v * (
        eval_prefix(b, t, k - 1) + b[k - 1] * pow(t, (k - 1) as nat))) by (nonlinear_arith);
    }
}

/// The inverse root inherits the order-`n` root-of-unity facts from the
/// root itself.
proof fn lemma_inv_root_props(g: int, gi: int, n: nat, p: int)
    requires
        1 < p,
        1 <= n,
        (g * gi) % p == 1,
        pow(g, n) % p == 1,
        n > 1 ==> pow(g, (n / 2) as nat) % p == p - 1,
        0 <= gi < p,
    ensures
        pow(gi, n) % p == 1,
        n > 1 ==> pow(gi, (n / 2) as nat) % p == p - 1,
{
    vstd::arithmetic::div_mod::lemma_small_mod(1nat, p as nat);
    assert forall|e: nat| e >= 1 implies (pow(g, e) * pow(gi, e)) % p == 1 by {
        vstd::arithmetic::power::lemma_pow_distributes(g, gi, e);
        vstd::arithmetic::power::lemma_pow_mod_noop(g * gi, e, p);
        vstd::arithmetic::power::lemma1_pow(e);
        assert(pow((g * gi) % p, e) == 1);
    }
    // From (g^e * gi^e) congruent to 1 and g^e congruent to a known value,
    // solve for gi^e.
    assert((pow(g, n) * pow(gi, n)) % p == ((pow(g, n) % p) * pow(gi, n)) % p) by {
        vstd::arithmetic::div_mod::lemma_mul_mod_noop_left(pow(g, n), pow(gi, n), p);
    }
    vstd::arithmetic::div_mod::lemma_mod_bound(pow(gi, n), p);
    assert((1 * pow(gi, n)) % p == pow(gi, n) % p);
    assert(pow(gi, n) % p == 1);
    if n > 1 {
        let m = (n / 2) as nat;
        assert((pow(g, m) * pow(gi, m)) % p == 1);
        assert(((pow(g, m) % p) * pow(gi, m)) % p == 1) by {
            vstd::arithmetic::div_mod::lemma_mul_mod_noop_left(pow(g, m), pow(gi, m), p);
        }
        assert(((p - 1) * pow(gi, m)) % p == 1);
        let x = pow(gi, m) % p;
        vstd::arithmetic::div_mod::lemma_mod_bound(pow(gi, m), p);
        assert(((p - 1) * x) % p == 1) by {
            vstd::arithmetic::div_mod::lemma_mul_mod_noop_right(p - 1, pow(gi, m), p);
        }
        assert((p - 1) * x == (x - 1) * p + (p - x)) by (nonlinear_arith);
        if x == 0 {
            assert(((p - 1) * x) % p == 0) by {
                assert((p - 1) * 0 == 0) by (nonlinear_arith);
                vstd::arithmetic::div_mod::lemma_small_mod(0nat, p as nat);
            }
        } else {
            assert(((p - 1) * x) % p == p - x) by {
                vstd::arithmetic::div_mod::lemma_fundamental_div_mod_converse_mod(
                    (p - 1) * x,
                    p,
                    x - 1,
                    p - x,
                );
            }
        }
        assert(x == p - 1);
    }
}

/// The orthogonality relation behind inversion: the inverse-side evaluation
/// of the forward transform of a single-entry sequence keeps the entry,
/// scaled by the length, exactly at its own index and vanishes elsewhere.
proof fn lemma_unit_row(v: int, j: int, k: int, c: Constants, n: nat)
    requires
        1 < (c.modulus as int),
        1 <= n,
        spec_is_pow2(n as int),
        0 <= j < n,
        0 <= k < n,
        good_root(c.root as int, n as int, c.modulus as int),
        1 <= c.root_inv < c.modulus,
        ((c.root as int) * (c.root_inv as int)) % (c.modulus as int) == 1,
    ensures
        eval_at(
            spec_forward(unit_seq(n as int, j, v), c),
            pow(c.root_inv as int, k as nat) % (c.modulus as int),
        ) % (c.modulus as int) == if j == k {
            (v * n) % (c.modulus as int)
        } else {
            0int
        },
{
    let p = c.modulus as int;
    let g = c.root as int;
    let gi = c.root_inv as int;
    let u = unit_seq(n as int, j, v);
    let f = spec_forward(u, c);
    let tk = pow(gi, k as nat) % p;
    let jn = j as nat;
    let kn = k as nat;
    let hh: int = if j >= k {
        g
    } else {
        gi
    };
    let d: nat = if j >= k {
        (j - k) as nat
    } else {
        (k - j) as nat
    };
    vstd::arithmetic::div_mod::lemma_small_mod(1nat, p as nat);
    assert forall|i: int| 0 <= i < n implies #[trigger] ((f[i] * pow(tk, i as nat)) % p) == (v
        * pow(hh, d * (i as nat))) % p by {
        let inat = i as nat;
        let si = pow(g, inat) % p;
        assert(f[i] == eval_at(u, si) % p);
        lemma_eval_unit(n as int, j, v, si, n as int);
        assert(eval_at(u, si) == v * pow(si, jn));
        let lhs0 = (f[i] * pow(tk, inat)) % p;
        assert(lhs0 == ((v * pow(si, jn)) * pow(tk, inat)) % p) by {
            vstd::arithmetic::div_mod::lemma_mul_mod_noop_left(v * pow(si, jn), pow(tk, inat), p);
        }
        assert((v * pow(si, jn)) * pow(tk, inat) == v * (pow(si, jn) * pow(tk, inat)))
            by (nonlinear_arith);
        // Reduce both power factors to powers of g and gi.
        assert(pow(si, jn) % p == pow(g, inat * jn) % p) by {
            vstd::arithmetic::power::lemma_pow_mod_noop(pow(g, inat), jn, p);
            vstd::arithmetic::power::lemma_pow_multiplies(g, inat, jn);
        }
        assert(pow(tk, inat) % p == pow(gi, kn * inat) % p) by {
            vstd::arithmetic::power::lemma_pow_mod_noop(pow(gi, kn), inat, p);
            vstd::arithmetic::power::lemma_pow_multiplies(gi, kn, inat);
        }
        assert((pow(si, jn) * pow(tk, inat)) % p == (pow(g, inat * jn) * pow(gi, kn * inat))
            % p) by {
            vstd::arithmetic::div_mod::lemma_mul_mod_noop_general(pow(si, jn), pow(tk, inat), p);
            vstd::arithmetic::div_mod::lemma_mul_mod_noop_general(
                pow(g, inat * jn),
                pow(gi, kn * inat),
                p,
            );
        }
        // Split off the shared power of g * gi, which is congruent to one.
        assert(pow(g * gi, kn * inat) % p == 1) by {
            vstd::arithmetic::power::lemma_pow_mod_noop(g * gi, kn * inat, p);
            vstd::arithmetic::power::lemma1_pow(kn * inat);
            assert(pow((g * gi) % p, kn * inat) == 1);
        }
        assert(pow(g * gi, jn * inat) % p == 1) by {
            vstd::arithmetic::power::lemma_pow_mod_noop(g * gi, jn * inat, p);
            vstd::arithmetic::power::lemma1_pow(jn * inat);
            assert(pow((g * gi) % p, jn * inat) == 1);
        }
        if j >= k {
            assert(inat * jn == d * inat + kn * inat) by (nonlinear_arith)
                requires
                    d == (j - k) as nat,
                    jn == j as nat,
                    kn == k as nat,
                    j >= k >= 0,
                    i >= 0,
                    inat == i as nat,
            ;
            assert(pow(g, inat * jn) == pow(g, d * inat) * pow(g, kn * inat)) by {
                vstd::arithmetic::power::lemma_pow_adds(g, d * inat, kn * inat);
            }
            assert(pow(g, kn * inat) * pow(gi, kn * inat) == pow(g * gi, kn * inat)) by {
                vstd::arithmetic::power::lemma_pow_distributes(g, gi, kn * inat);
            }
            assert(pow(g, inat * jn) * pow(gi, kn * inat) == pow(hh, d * inat) * pow(
                g * gi,
                kn * inat,
            )) by (nonlinear_arith)
                requires
                    pow(g, inat * jn) == pow(g, d * inat) * pow(g, kn * inat),
                    pow(g, kn * inat) * pow(gi, kn * inat) == pow(g * gi, kn * inat),
                    hh == g,
            ;
            assert((pow(hh, d * inat) * pow(g * gi, kn * inat)) % p == pow(hh, d * inat) % p) by {
                vstd::arithmetic::div_mod::lemma_mul_mod_noop_right(
                    pow(hh, d * inat),
                    pow(g * gi, kn * inat),
                    p,
                );
            }
        } else {
            assert(kn * inat == d * inat + jn * inat) by (nonlinear_arith)
                requires
                    d == (k - j) as nat,
                    jn == j as nat,
                    kn == k as nat,
                    k > j >= 0,
                    i >= 0,
                    inat == i as nat,
            ;
            assert(pow(gi, kn * inat) == pow(gi, d * inat) * pow(gi, jn * inat)) by {
                vstd::arithmetic::power::lemma_pow_adds(gi, d * inat, jn * inat);
            }
            assert(pow(g, jn * inat) * pow(gi, jn * inat) == pow(g * gi, jn * inat)) by {
                vstd::arithmetic::power::lemma_pow_distributes(g, gi, jn * inat);
            }
            assert(pow(g, inat * jn) * pow(gi, kn * inat) == pow(hh, d * inat) * pow(
                g * gi,
                jn * inat,
            )) by (nonlinear_arith)
                requires
                    pow(gi, kn * inat) == pow(gi, d * inat) * pow(gi, jn * inat),
                    pow(g, jn * inat) * pow(gi, jn * inat) == pow(g * gi, jn * inat),
                    hh == gi,
            ;
            assert((pow(hh, d * inat) * pow(g * gi, jn * inat)) % p == pow(hh, d * inat) % p) by {
                vstd::arithmetic::div_mod::lemma_mul_mod_noop_right(
                    pow(hh, d * inat),
                    pow(g * gi, jn * inat),
                    p,
                );
            }
        }
        assert((pow(si, jn) * pow(tk, inat)) % p == pow(hh, d * inat) % p);
        assert((v * (pow(si, jn) * pow(tk, inat))) % p == (v * pow(hh, d * inat)) % p) by {
            vstd::arithmetic::div_mod::lemma_mul_mod_noop_right(
                v,
                pow(si, jn) * pow(tk, inat),
                p,
            );
            vstd::arithmetic::div_mod::lemma_mul_mod_noop_right(v, pow(hh, d * inat), p);
        }
    }
    lemma_eval_prefix_psum(f, tk, hh, d, p, v, n as int);
    assert(eval_at(f, tk) % p == (v * psum(hh, d, n)) % p);
    if j == k {
        lemma_psum_stride_zero(hh, n);
    } else {
        assert(n >= 2);
        if j < k {
            lemma_inv_root_props(g, gi, n, p);
        }
        lemma_psum_cancel(hh, d, n, p);
        assert((v * psum(hh, d, n)) % p == 0) by {
            vstd::arithmetic::div_mod::lemma_mul_mod_noop_right(v, psum(hh, d, n), p);
            assert(v * 0 == 0) by (nonlinear_arith);
            vstd::arithmetic::div_mod::lemma_small_mod(0nat, p as nat);
        }
    }
}

/// `y` with every entry at index `j` or above replaced by zero.
pub open spec fn prefix_mask(y: Seq<int>, j: int) -> Seq<int> {
    Seq::new(y.len(), |t: int| if t < j { y[t] } else { 0 })
}

/// The round trip holds for every prefix mask of `y`, by induction on how
/// many entries are unmasked: each new entry adds, by linearity, exactly the
/// one orthogonality row of its own index.
proof fn lemma_trip_masked(y: Seq<int>, c: Constants, j: int)
    requires
        y.len() >= 1,
        spec_is_pow2(y.len() as int),
        constants_valid(c, y.len() as int),
        residues(y, c.modulus as int),
        0 <= j <= y.len(),
    ensures
        forall|k: int|
            0 <= k < y.len() ==> #[trigger] spec_inverse(spec_forward(prefix_mask(y, j), c), c)[k]
                == prefix_mask(y, j)[k],
    decreases j,
{
    let p = c.modulus as int;
    let g = c.root as int;
    let gi = c.root_inv as int;
    let ninv = c.len_inv as int;
    let n = y.len() as int;
    let nn = y.len();
    vstd::arithmetic::div_mod::lemma_small_mod(0nat, p as nat);
    vstd::arithmetic::div_mod::lemma_small_mod(1nat, p as nat);
    if j == 0 {
        let m0 = prefix_mask(y, 0);
        assert(m0 =~= unit_seq(n, 0, 0));
        let f0 = spec_forward(m0, c);
        assert forall|k: int| 0 <= k < nn implies #[trigger] spec_inverse(f0, c)[k] == m0[k] by {
            lemma_unit_row(0, 0, k, c, nn);
            let tk = pow(gi, k as nat) % p;
            assert((0int * (n as int)) % p == 0) by {
                assert(0int * (n as int) == 0) by (nonlinear_arith);
            }
            assert(eval_at(f0, tk) % p == 0);
            assert(spec_inverse(f0, c)[k] == (ninv * 0) % p);
            assert(ninv * 0 == 0) by (nonlinear_arith);
        }
    } else {
        lemma_trip_masked(y, c, j - 1);
        let a = prefix_mask(y, j - 1);
        let b = unit_seq(n, j - 1, y[j - 1]);
        let m = prefix_mask(y, j);
        assert(m =~= seq_sum(a, b));
        let fa = spec_forward(a, c);
        let fb = spec_forward(b, c);
        let fm = spec_forward(m, c);
        let sab = seq_sum(fa, fb);
        // Each forward entry of the new mask is congruent to the sum of the
        // forward entries of its parts.
        assert forall|i: int| 0 <= i < nn implies #[trigger] (fm[i] % p) == sab[i] % p by {
            let si = pow(g, i as nat) % p;
            lemma_eval_prefix_linear(a, b, si, n);
            assert(eval_at(m, si) == eval_at(a, si) + eval_at(b, si));
            lemma_add_mod_noop(eval_at(a, si), eval_at(b, si), p);
            vstd::arithmetic::div_mod::lemma_mod_twice(eval_at(m, si), p);
            vstd::arithmetic::div_mod::lemma_mod_twice(eval_at(a, si) + eval_at(b, si), p);
        }
        assert forall|k: int| 0 <= k < nn implies #[trigger] spec_inverse(fm, c)[k] == m[k] by {
            let tk = pow(gi, k as nat) % p;
            lemma_eval_prefix_congruent(fm, sab, tk, n, p);
            lemma_eval_prefix_linear(fa, fb, tk, n);
            let ea = eval_at(fa, tk);
            let eb = eval_at(fb, tk);
            assert(eval_at(fm, tk) % p == (ea + eb) % p);
            // Scale by the inverse of the length and split the sum.
            assert(spec_inverse(fm, c)[k] == (ninv * (eval_at(fm, tk) % p)) % p);
            assert((ninv * (eval_at(fm, tk) % p)) % p == (ninv * (ea + eb)) % p) by {
                vstd::arithmetic::div_mod::lemma_mul_mod_noop_right(ninv, eval_at(fm, tk), p);
                vstd::arithmetic::div_mod::lemma_mul_mod_noop_right(ninv, ea + eb, p);
            }
            assert(ninv * (ea + eb) == ninv * ea + ninv * eb) by (nonlinear_arith);
            lemma_add_mod_noop(ninv * ea, ninv * eb, p);
            // The first summand is the round trip of the smaller mask.
            assert((ninv * ea) % p == a[k]) by {
                vstd::arithmetic::div_mod::lemma_mul_mod_noop_right(ninv, ea, p);
                assert(spec_inverse(fa, c)[k] == a[k]);
            }
            // The second summand is the orthogonality row of the new entry.
            lemma_unit_row(y[j - 1], j - 1, k, c, nn);
            let unitval: int = if j - 1 == k {
                y[k]
            } else {
                0
            };
            assert((ninv * eb) % p == unitval) by {
                vstd::arithmetic::div_mod::lemma_mul_mod_noop_right(ninv, eb, p);
                if j - 1 == k {
                    assert(eb % p == (y[k] * (nn as int)) % p);
                    assert((ninv * (eb % p)) % p == (ninv * (y[k] * (nn as int))) % p) by {
                        vstd::arithmetic::div_mod::lemma_mul_mod_noop_right(ninv, eb, p);
                        vstd::arithmetic::div_mod::lemma_mul_mod_noop_right(
                            ninv,
                            y[k] * (nn as int),
                            p,
                        );
                    }
                    assert(ninv * (y[k] * (nn as int)) == y[k] * ((nn as int) * ninv))
                        by (nonlinear_arith);
                    assert((y[k] * ((nn as int) * ninv)) % p == (y[k] * (((nn as int) * ninv)
                        % p)) % p) by {
                        vstd::arithmetic::div_mod::lemma_mul_mod_noop_right(
                            y[k],
                            (nn as int) * ninv,
                            p,
                        );
                    }
                    assert(((nn as int) * ninv) % p == 1);
                    assert(y[k] * 1 == y[k]);
                    vstd::arithmetic::div_mod::lemma_small_mod(y[k] as nat, p as nat);
                } else {
                    assert(eb % p == 0);
                    assert(ninv * 0 == 0) by (nonlinear_arith);
                }
            }
            // The two parts never overlap, so their sum stays in range.
            assert(0 <= a[k] + unitval < p) by {
                if j - 1 == k {
                    assert(a[k] == 0);
                } else {
                    assert(unitval == 0);
                    if k < j - 1 {
                        assert(a[k] == y[k]);
                    } else {
                        assert(a[k] == 0);
                    }
                }
            }
            vstd::arithmetic::div_mod::lemma_small_mod((a[k] + unitval) as nat, p as nat);
            assert(m[k] == a[k] + unitval);
        }
    }
}

/// The fundamental correctness law of the transform engine: the inverse
/// transform exactly undoes the forward transform on every sequence of
/// canonical residues whose power-of-two length the constants were derived
/// for.
pub proof fn lemma_round_trip(y: Seq<int>, c: Constants)
    requires
        y.len() >= 1,
        spec_is_pow2(y.len() as int),
        constants_valid(c, y.len() as int),
        residues(y, c.modulus as int),
    ensures
        spec_inverse(spec_forward(y, c), c) == y,
{
    lemma_trip_masked(y, c, y.len() as int);
    assert(prefix_mask(y, y.len() as int) =~= y);
    assert(spec_inverse(spec_forward(y, c), c) =~= y);
}

/// Searches the arithmetic progression `k * n + 1` for the least working
/// modulus above the coefficient bound `m`, together with the least order-`n`
/// root of unity and the needed inverses. The search is a pure function of
/// `(n, m)`, so the forward and inverse transform of one multiplication see
/// the same constants. `None` exactly when no candidate up to `MODULUS_CAP`
/// is usable.
pub fn working_modulus(n: u64, m: i128) -> (r: Option<Constants>)
    requires
        1 <= n <= 0x1000_0000,
        spec_is_pow2(n as int),
        0 <= m,
    ensures
        match r {
            Some(c) => constants_valid(c, n as int) && (c.modulus as int) > m && forall|q: int|
                1 < q < c.modulus ==> !#[trigger] usable_modulus(q, n as int, m as int),
            None => forall|q: int|
                1 < q <= MODULUS_CAP ==> !#[trigger] usable_modulus(q, n as int, m as int),
        },
{
    let ni: i128 = n as i128;
    let mut p: i128 = ni + 1;
    proof {
        vstd::arithmetic::div_mod::lemma_mod_bound(1int, ni as int);
        if ni == 1 {
            vstd::arithmetic::div_mod::lemma_fundamental_div_mod_converse_mod(
                p as int,
                1int,
                p as int,
                0int,
            );
            vstd::arithmetic::div_mod::lemma_fundamental_div_mod_converse_mod(1int, 1int, 1int, 0int);
        } else {
            vstd::arithmetic::div_mod::lemma_small_mod(1nat, ni as nat);
            vstd::arithmetic::div_mod::lemma_fundamental_div_mod_converse_mod(
                p as int,
                ni as int,
                1int,
                1int,
            );
        }
        assert forall|q: int| 1 < q < p implies !usable_modulus(q, n as int, m as int) by {
            if usable_modulus(q, n as int, m as int) {
                // A usable modulus is congruent to 1 modulo n, so it exceeds n.
                assert(q % (ni as int) == 1int % (ni as int));
                vstd::arithmetic::div_mod::lemma_mod_bound(q, ni as int);
                if ni == 1 {
                    assert(spec_prime(q) && q % 1int == 0);
                } else {
                    assert(1int % (ni as int) == 1) by {
                        vstd::arithmetic::div_mod::lemma_small_mod(1nat, ni as nat);
                    }
                    vstd::arithmetic::div_mod::lemma_small_mod(q as nat, ni as nat);
                }
            }
        }
    }
    while p <= MODULUS_CAP
        invariant
            1 <= ni <= 0x1000_0000,
            ni == n as i128,
            ni + 1 <= p <= MODULUS_CAP + ni,
            0 <= m,
            (p as int) % (ni as int) == 1int % (ni as int),
            forall|q: int| 1 < q < p ==> !#[trigger] usable_modulus(q, n as int, m as int),
        decreases MODULUS_CAP + ni - p,
    {
        if p > m && is_prime(p) {
            match find_root_with_inv(n, p) {
                Some(hy) => {
                    let (h, y): (i128, i128) = hy;
                    match find_inverse(ni, p) {
                        Some(w) => {
                            let c = Constants { modulus: p, root: h, root_inv: y, len_inv: w };
                            return Some(c);
                        },
                        None => {},
                    }
                },
                None => {},
            }
        }
        proof {
            assert(!usable_modulus(p as int, n as int, m as int));
            assert forall|q: int| p < q < p + ni implies !usable_modulus(
                q,
                n as int,
                m as int,
            ) by {
                // The candidates congruent to 1 modulo n are exactly n apart,
                // so nothing strictly between two of them qualifies.
                let t: int = q - p;
                lemma_add_mod_noop(p as int, t, ni as int);
                vstd::arithmetic::div_mod::lemma_small_mod(t as nat, ni as nat);
                vstd::arithmetic::div_mod::lemma_small_mod(1nat, ni as nat);
                if 1 + t < ni {
                    vstd::arithmetic::div_mod::lemma_small_mod((1 + t) as nat, ni as nat);
                } else {
                    vstd::arithmetic::div_mod::lemma_mod_self_0(ni as int);
                }
            }
            assert((p as int + ni as int) % (ni as int) == 1int % (ni as int)) by {
                vstd::arithmetic::div_mod::lemma_mod_add_multiples_vanish(p as int, ni as int);
            }
        }
        p = p + ni;
    }
    None
}

} // verus!
