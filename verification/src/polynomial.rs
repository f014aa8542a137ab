//! The `Polynomial` coefficient container and its ring operations: the
//! normalizing constructor, aligned addition and subtraction, negation,
//! formal differentiation, and the two multiplication strategies.

use vstd::prelude::*;

verus! {

use crate::ntt::Constants;
use crate::ntt::MODULUS_CAP;
use crate::ntt::constants_valid;
use crate::ntt::forward;
use crate::ntt::inverse;
use crate::ntt::mod_reduce;
use crate::ntt::pointwise_mod_mul;
use crate::ntt::eval_at;
use crate::ntt::eval_prefix;
use crate::ntt::residues;
use crate::ntt::spec_forward;
use crate::ntt::spec_inverse;
use crate::ntt::seq_sum;
use crate::ntt::lemma_round_trip;
use crate::ntt::lemma_eval_prefix_linear;
use crate::ntt::lemma_eval_prefix_congruent;
use crate::ntt::lemma_eval_prefix_ext;
use crate::ntt::lemma_eval_prefix_split;
use crate::ntt::lemma_eval_prefix_zero;
use crate::ntt::lemma_eval_prefix_zero_tail;
use crate::ntt::lemma_eval_prefix_scaled;
use vstd::arithmetic::power::pow;

/// Coefficients are stored most-significant first (big-endian): the
/// coefficient at index 0 belongs to the highest-degree term.
#[derive(Debug, Clone)]
pub struct Polynomial {
    pub coef: Vec<i128>,
}

/// A coefficient vector as a mathematical sequence of integers.
pub open spec fn as_ints(s: Seq<i128>) -> Seq<int> {
    s.map(|i: int, x: i128| x as int)
}

impl View for Polynomial {
    type V = Seq<int>;

    open spec fn view(&self) -> Seq<int> {
        as_ints(self.coef@)
    }
}

/// Whether `n` is a power of two.
pub open spec fn spec_is_pow2(n: int) -> bool
    decreases n,
{
    if n < 1 {
        false
    } else if n == 1 {
        true
    } else {
        n % 2 == 0 && spec_is_pow2(n / 2)
    }
}

/// The least power of two that is at least `n` (and at least 1).
pub open spec fn spec_next_pow2(n: int) -> int
    decreases n,
{
    if n <= 1 {
        1
    } else {
        2 * spec_next_pow2((n + 1) / 2)
    }
}

/// The all-zero sequence of length `k`.
pub open spec fn zeros(k: int) -> Seq<int> {
    Seq::new(k as nat, |i: int| 0)
}

/// `s` left-padded with zeros up to length `l`.
pub open spec fn pad_to(s: Seq<int>, l: int) -> Seq<int> {
    zeros(l - s.len()) + s
}

/// What the normalizing constructor returns: the input left-padded with
/// zeros to the next power-of-two length.
pub open spec fn spec_new_poly(s: Seq<int>) -> Seq<int> {
    pad_to(s, spec_next_pow2(s.len() as int))
}

pub proof fn lemma_np2_bounds(n: int)
    requires
        n >= 1,
    ensures
        spec_next_pow2(n) >= n,
        spec_is_pow2(spec_next_pow2(n)),
    decreases n,
{
    if n > 1 {
        lemma_np2_bounds((n + 1) / 2);
    }
}

pub proof fn lemma_np2_least(n: int, q: int)
    requires
        n >= 1,
        spec_is_pow2(q),
        q >= n,
    ensures
        spec_next_pow2(n) <= q,
    decreases n,
{
    if n > 1 {
        // q >= n >= 2, and a power of two above 1 is even with q / 2 a power
        // of two at least ceil(n / 2).
        assert(q % 2 == 0 && spec_is_pow2(q / 2));
        lemma_np2_least((n + 1) / 2, q / 2);
    }
}

pub proof fn lemma_np2_fixed(n: int)
    requires
        spec_is_pow2(n),
    ensures
        spec_next_pow2(n) == n,
{
    lemma_np2_bounds(n);
    lemma_np2_least(n, n);
}

proof fn lemma_pow2_double(p: int, q: int)
    requires
        spec_is_pow2(p),
        spec_is_pow2(q),
        p < q,
    ensures
        2 * p <= q,
    decreases p,
{
    if p > 1 {
        lemma_pow2_double(p / 2, q / 2);
    }
}

/// The least power of two that is at least `n`.
pub fn next_pow_two(n: usize) -> (r: usize)
    requires
        1 <= n <= 0x1000_0000,
    ensures
        r as int == spec_next_pow2(n as int),
        r >= n,
        spec_is_pow2(r as int),
{
    proof {
        lemma_np2_bounds(n as int);
    }
    let mut p: usize = 1;
    while p < n
        invariant
            1 <= p,
            p <= 2 * n,
            n <= 0x1000_0000,
            spec_is_pow2(p as int),
            p as int <= spec_next_pow2(n as int),
            spec_next_pow2(n as int) >= n,
            spec_is_pow2(spec_next_pow2(n as int)),
        decreases 2 * (n as int) - (p as int),
    {
        proof {
            lemma_pow2_double(p as int, spec_next_pow2(n as int));
        }
        p = p * 2;
    }
    proof {
        lemma_np2_least(n as int, p as int);
    }
    p
}

impl Polynomial {
    /// Normalizing constructor: pads the coefficient list on the high-degree
    /// (left) side with zeros until its length is a power of two. A list
    /// whose length already is a power of two is kept as it is.
    pub fn new(coef: Vec<i128>) -> (r: Polynomial)
        requires
            1 <= coef@.len() <= 0x1000_0000,
        ensures
            r@ == spec_new_poly(as_ints(coef@)),
            r@.len() == spec_next_pow2(coef@.len() as int),
            r@.len() >= coef@.len(),
            spec_is_pow2(r@.len() as int),
            spec_is_pow2(coef@.len() as int) ==> r@ == as_ints(coef@),
    {
        let n: usize = coef.len();
        let m: usize = next_pow_two(n);
        let mut out: Vec<i128> = Vec::new();
        let mut i: usize = 0;
        while i < m - n
            invariant
                0 <= i <= m - n,
                n <= m,
                out@.len() == i,
                forall|j: int| 0 <= j < i ==> out@[j] == 0i128,
            decreases m - n - i,
        {
            out.push(0);
            i = i + 1;
        }
        let mut k: usize = 0;
        while k < n
            invariant
                0 <= k <= n,
                n == coef@.len(),
                n <= m,
                out@.len() == (m - n) + k,
                forall|j: int| 0 <= j < m - n ==> out@[j] == 0i128,
                forall|j: int| 0 <= j < k ==> out@[m - n + j] == coef@[j],
            decreases n - k,
    {
            out.push(coef[k]);
            k = k + 1;
        }
        let r = Polynomial { coef: out };
        proof {
            assert(r@ =~= spec_new_poly(as_ints(coef@)));
            if spec_is_pow2(coef@.len() as int) {
                lemma_np2_fixed(coef@.len() as int);
                assert(r@ =~= as_ints(coef@));
            }
        }
        r
    }

    /// The number of stored coefficients.
    pub fn len(&self) -> (r: usize)
        ensures
            r == self@.len(),
    {
        self.coef.len()
    }
}

/// Aligned coefficient-wise sum: the operands are aligned at the low-degree
/// (rightmost) end, the shorter one extended with high-degree zeros, and the
/// result has the length of the longer one.
pub open spec fn spec_add(a: Seq<int>, b: Seq<int>) -> Seq<int> {
    let l = vstd::math::max(a.len() as int, b.len() as int);
    Seq::new(l as nat, |i: int| pad_to(a, l)[i] + pad_to(b, l)[i])
}

/// Coefficient-wise negation.
pub open spec fn spec_neg(s: Seq<int>) -> Seq<int> {
    s.map(|i: int, x: int| -x)
}

/// Subtraction is addition of the negation.
pub open spec fn spec_sub(a: Seq<int>, b: Seq<int>) -> Seq<int> {
    spec_add(a, spec_neg(b))
}

/// Whether every aligned coefficient sum of `a` and `b` fits in an `i128`.
pub open spec fn add_fits(a: Seq<int>, b: Seq<int>) -> bool {
    forall|i: int|
        0 <= i < spec_add(a, b).len() ==> i128::MIN <= #[trigger] spec_add(a, b)[i] <= i128::MAX
}

impl Polynomial {
    /// Adds two polynomials, aligned at the low-degree end; missing
    /// high-degree coefficients of the shorter operand count as zero.
    pub fn add(self, rhs: Polynomial) -> (r: Polynomial)
        requires
            add_fits(self@, rhs@),
        ensures
            r@ == spec_add(self@, rhs@),
            r@.len() == vstd::math::max(self@.len() as int, rhs@.len() as int),
    {
        let la: usize = self.coef.len();
        let lb: usize = rhs.coef.len();
        let l: usize = if la > lb {
            la
        } else {
            lb
        };
        let mut out: Vec<i128> = Vec::new();
        let mut i: usize = 0;
        while i < l
            invariant
                0 <= i <= l,
                la == self@.len(),
                lb == rhs@.len(),
                l == vstd::math::max(la as int, lb as int),
                add_fits(self@, rhs@),
                out@.len() == i,
                forall|j: int| 0 <= j < i ==> out@[j] as int == #[trigger] spec_add(self@, rhs@)[j],
            decreases l - i,
        {
            let ai: i128 = if i >= l - la {
                self.coef[i - (l - la)]
            } else {
                0
            };
            let bi: i128 = if i >= l - lb {
                rhs.coef[i - (l - lb)]
            } else {
                0
            };
            proof {
                assert(pad_to(self@, l as int)[i as int] == ai as int);
                assert(pad_to(rhs@, l as int)[i as int] == bi as int);
                assert(spec_add(self@, rhs@)[i as int] == ai as int + bi as int);
            }
            out.push(ai + bi);
            i = i + 1;
        }
        let r = Polynomial { coef: out };
        proof {
            assert(r@ =~= spec_add(self@, rhs@));
        }
        r
    }

    /// Negates every coefficient; the length is unchanged.
    pub fn neg(self) -> (r: Polynomial)
        requires
            forall|i: int| 0 <= i < self@.len() ==> #[trigger] self@[i] > i128::MIN,
        ensures
            r@ == spec_neg(self@),
            r@.len() == self@.len(),
    {
        let n: usize = self.coef.len();
        let mut out: Vec<i128> = Vec::new();
        let mut i: usize = 0;
        while i < n
            invariant
                0 <= i <= n,
                n == self@.len(),
                forall|j: int| 0 <= j < n ==> #[trigger] self@[j] > i128::MIN,
                out@.len() == i,
                forall|j: int| 0 <= j < i ==> out@[j] as int == -#[trigger] self@[j],
            decreases n - i,
        {
            proof {
                assert(self@[i as int] == self.coef@[i as int] as int);
            }
            out.push(-self.coef[i]);
            i = i + 1;
        }
        let r = Polynomial { coef: out };
        proof {
            assert(r@ =~= spec_neg(self@));
        }
        r
    }

    /// Subtracts `rhs` from `self`: addition of the negation, aligned at the
    /// low-degree end.
    pub fn sub(self, rhs: Polynomial) -> (r: Polynomial)
        requires
            forall|i: int| 0 <= i < rhs@.len() ==> #[trigger] rhs@[i] > i128::MIN,
            add_fits(self@, spec_neg(rhs@)),
        ensures
            r@ == spec_sub(self@, rhs@),
    {
        let n = rhs.neg();
        self.add(n)
    }
}

/// One term of a convolution sum: `a[i] * b[k - i]` where both indices are
/// in range, and zero otherwise.
pub open spec fn conv_term(a: Seq<int>, b: Seq<int>, k: int, i: int) -> int {
    if 0 <= i < a.len() && 0 <= k - i < b.len() {
        a[i] * b[k - i]
    } else {
        0
    }
}

/// The convolution sum at position `k`, restricted to the first `i` indices
/// of `a`.
pub open spec fn conv_prefix(a: Seq<int>, b: Seq<int>, k: int, i: int) -> int
    decreases i,
{
    if i <= 0 {
        0
    } else {
        conv_prefix(a, b, k, i - 1) + conv_term(a, b, k, i - 1)
    }
}

/// The full convolution sum at position `k`: the sum of `a[i] * b[j]` over
/// all pairs with `i + j == k`.
pub open spec fn conv_at(a: Seq<int>, b: Seq<int>, k: int) -> int {
    conv_prefix(a, b, k, a.len() as int)
}

/// The convolution of `a` and `b` as stored big-endian: entry `e` holds the
/// sum of products whose positions, counted from the low-degree end, sum to
/// the position of `e`. Entry 0 is always zero.
pub open spec fn spec_conv(a: Seq<int>, b: Seq<int>) -> Seq<int> {
    Seq::new((a.len() + b.len()) as nat, |e: int| conv_at(a, b, e - 1))
}

/// Whether every entry of `s` lies in `[-bnd, bnd]`.
pub open spec fn abs_bounded(s: Seq<int>, bnd: int) -> bool {
    forall|i: int| 0 <= i < s.len() ==> -bnd <= #[trigger] s[i] <= bnd
}

/// Whether some common entry bound keeps every intermediate sum of the
/// brute-force convolution of `a` and `b` inside `i128`.
pub open spec fn conv_fits(a: Seq<int>, b: Seq<int>) -> bool {
    exists|bnd: int|
        0 <= bnd && #[trigger] abs_bounded(a, bnd) && abs_bounded(b, bnd) && (a.len() + 1) * bnd
            * bnd <= i128::MAX
}

pub proof fn lemma_conv_prefix_bound(a: Seq<int>, b: Seq<int>, k: int, i: int, bnd: int)
    requires
        0 <= bnd,
        abs_bounded(a, bnd),
        abs_bounded(b, bnd),
        0 <= i <= a.len(),
    ensures
        -(i * bnd * bnd) <= conv_prefix(a, b, k, i) <= i * bnd * bnd,
    decreases i,
{
    if i > 0 {
        lemma_conv_prefix_bound(a, b, k, i - 1, bnd);
        assert(-(bnd * bnd) <= conv_term(a, b, k, i - 1) <= bnd * bnd) by (nonlinear_arith)
            requires
                0 <= bnd,
                abs_bounded(a, bnd),
                abs_bounded(b, bnd),
                0 <= i - 1 < a.len(),
        ;
        assert((i - 1) * bnd * bnd + bnd * bnd == i * bnd * bnd) by (nonlinear_arith);
    }
}

impl Polynomial {
    /// Brute-force multiplication: the plain quadratic convolution, kept as
    /// the correctness oracle for the transform path. The result keeps one
    /// leading zero entry followed by the full convolution.
    pub fn mul_brute(self, rhs: Polynomial) -> (r: Polynomial)
        requires
            conv_fits(self@, rhs@),
            self@.len() + rhs@.len() <= 0x1000_0000,
        ensures
            r@ == spec_conv(self@, rhs@),
            r@.len() == self@.len() + rhs@.len(),
    {
        let a: usize = self.coef.len();
        let b: usize = rhs.coef.len();
        let ghost bnd: int = choose|bnd: int|
            0 <= bnd && #[trigger] abs_bounded(self@, bnd) && abs_bounded(rhs@, bnd) && (
            self@.len() + 1) * bnd * bnd <= i128::MAX;
        let mut out: Vec<i128> = Vec::new();
        let mut z: usize = 0;
        while z < a + b
            invariant
                0 <= z <= a + b,
                a + b <= 0x1000_0000,
                out@.len() == z,
                forall|e: int| 0 <= e < z ==> out@[e] == 0i128,
            decreases a + b - z,
        {
            out.push(0);
            z = z + 1;
        }
        let mut i: usize = 0;
        while i < a
            invariant
                0 <= i <= a,
                a == self@.len(),
                b == rhs@.len(),
                a + b <= 0x1000_0000,
                0 <= bnd,
                abs_bounded(self@, bnd),
                abs_bounded(rhs@, bnd),
                (a + 1) * bnd * bnd <= i128::MAX,
                out@.len() == a + b,
                forall|e: int|
                    0 <= e < a + b ==> (#[trigger] out@[e]) as int == conv_prefix(
                        self@,
                        rhs@,
                        e - 1,
                        i as int,
                    ),
            decreases a - i,
        {
            let mut j: usize = 0;
            while j < b
                invariant
                    0 <= j <= b,
                    0 <= i < a,
                    a == self@.len(),
                    b == rhs@.len(),
                    a + b <= 0x1000_0000,
                    0 <= bnd,
                    abs_bounded(self@, bnd),
                    abs_bounded(rhs@, bnd),
                    (a + 1) * bnd * bnd <= i128::MAX,
                    out@.len() == a + b,
                    forall|e: int|
                        0 <= e < a + b ==> (#[trigger] out@[e]) as int == conv_prefix(
                            self@,
                            rhs@,
                            e - 1,
                            i as int,
                        ) + (if 0 <= e - 1 - i < j {
                            self@[i as int] * rhs@[e - 1 - i]
                        } else {
                            0
                        }),
                decreases b - j,
            {
                let e: usize = i + j + 1;
                proof {
                    assert(self@[i as int] == self.coef@[i as int] as int);
                    assert(rhs@[j as int] == rhs.coef@[j as int] as int);
                    lemma_conv_prefix_bound(self@, rhs@, e - 1, i as int, bnd);
                    assert(-(bnd * bnd) <= self@[i as int] * rhs@[j as int] <= bnd * bnd)
                        by (nonlinear_arith)
                        requires
                            0 <= bnd,
                            abs_bounded(self@, bnd),
                            abs_bounded(rhs@, bnd),
                            0 <= i < self@.len(),
                            0 <= j < rhs@.len(),
                    ;
                    assert((i as int) * bnd * bnd + bnd * bnd <= (a + 1) * bnd * bnd)
                        by (nonlinear_arith)
                        requires
                            0 <= bnd,
                            0 <= i < a,
                    ;
                }
                let v: i128 = out[e] + self.coef[i] * rhs.coef[j];
                out.set(e, v);
                j = j + 1;
            }
            proof {
                assert forall|e: int| 0 <= e < a + b implies (#[trigger] out@[e]) as int
                    == conv_prefix(self@, rhs@, e - 1, (i + 1) as int) by {
                    assert(conv_prefix(self@, rhs@, e - 1, (i + 1) as int) == conv_prefix(
                        self@,
                        rhs@,
                        e - 1,
                        i as int,
                    ) + conv_term(self@, rhs@, e - 1, i as int));
                }
            }
            i = i + 1;
        }
        let r = Polynomial { coef: out };
        proof {
            assert(r@ =~= spec_conv(self@, rhs@));
        }
        r
    }
}

/// The index of the first nonzero entry of `s` at or after `i`, or the
/// length of `s` if there is none.
pub open spec fn first_nz_from(s: Seq<int>, i: int) -> int
    decreases s.len() - i,
{
    if i >= s.len() {
        s.len() as int
    } else if s[i] != 0 {
        i
    } else {
        first_nz_from(s, i + 1)
    }
}

/// The index of the first nonzero entry of `s`, or its length if `s` is all
/// zero.
pub open spec fn first_nz(s: Seq<int>) -> int {
    first_nz_from(s, 0)
}

/// The degree of the polynomial `s` represents: the exponent of its highest
/// nonzero term. Meaningful only when some entry is nonzero.
pub open spec fn spec_degree(s: Seq<int>) -> int {
    s.len() - first_nz(s) - 1
}

pub proof fn lemma_first_nz_props(s: Seq<int>, i: int)
    requires
        0 <= i <= s.len(),
    ensures
        i <= first_nz_from(s, i) <= s.len(),
        first_nz_from(s, i) < s.len() ==> s[first_nz_from(s, i)] != 0,
        forall|j: int| i <= j < first_nz_from(s, i) ==> s[j] == 0,
    decreases s.len() - i,
{
    if i < s.len() && s[i] == 0 {
        lemma_first_nz_props(s, i + 1);
    }
}

/// What the formal derivative writes before trimming: entry 0 becomes zero,
/// and each later entry is the previous coefficient multiplied by its own
/// degree, shifted down one degree.
pub open spec fn spec_diff(s: Seq<int>) -> Seq<int> {
    Seq::new(s.len(), |i: int| if i == 0 { 0 } else { s[i - 1] * (s.len() - i) })
}

/// The index of the first nonzero entry of `v`, or `v.len()` if all entries
/// are zero.
pub fn find_first_nonzero(v: &Vec<i128>) -> (r: usize)
    ensures
        r as int == first_nz(as_ints(v@)),
        r <= v@.len(),
{
    let n: usize = v.len();
    let mut i: usize = 0;
    while i < n
        invariant
            0 <= i <= n,
            n == v@.len(),
            first_nz(as_ints(v@)) == first_nz_from(as_ints(v@), i as int),
        decreases n - i,
    {
        if v[i] != 0 {
            proof {
                assert(as_ints(v@)[i as int] == v@[i as int] as int);
            }
            return i;
        }
        i = i + 1;
    }
    i
}

/// Copies the entries of `v` from `start` (inclusive) to `end` (exclusive).
pub fn copy_range(v: &Vec<i128>, start: usize, end: usize) -> (r: Vec<i128>)
    requires
        start <= end <= v@.len(),
    ensures
        r@ == v@.subrange(start as int, end as int),
{
    let mut out: Vec<i128> = Vec::new();
    let mut i: usize = start;
    while i < end
        invariant
            start <= i <= end <= v@.len(),
            out@.len() == i - start,
            forall|j: int| 0 <= j < i - start ==> out@[j] == v@[start + j],
        decreases end - i,
    {
        out.push(v[i]);
        i = i + 1;
    }
    proof {
        assert(out@ =~= v@.subrange(start as int, end as int));
    }
    out
}

impl Polynomial {
    /// The degree: the length minus the index of the first nonzero
    /// coefficient, minus one. The all-zero polynomial is excluded, since it
    /// has no first nonzero coefficient.
    pub fn degree(&self) -> (r: usize)
        requires
            exists|j: int| 0 <= j < self@.len() && self@[j] != 0,
        ensures
            r as int == spec_degree(self@),
            r < self@.len(),
    {
        let start: usize = find_first_nonzero(&self.coef);
        proof {
            lemma_first_nz_props(self@, 0);
            if first_nz(self@) == self@.len() {
                let j = choose|j: int| 0 <= j < self@.len() && self@[j] != 0;
                assert(self@[j] == 0);
            }
        }
        self.coef.len() - start - 1
    }

    /// The formal derivative: each coefficient is multiplied by its own
    /// degree and shifted down one degree, and the leading zeros this leaves
    /// are trimmed. A polynomial whose derivative would be identically zero
    /// (a constant) is excluded.
    pub fn diff(self) -> (r: Polynomial)
        requires
            exists|j: int| 0 <= j < self@.len() - 1 && self@[j] != 0,
            forall|i: int|
                1 <= i < self@.len() ==> i128::MIN <= #[trigger] (self@[i - 1] * (self@.len()
                    - i)) <= i128::MAX,
        ensures
            r@ == spec_diff(self@).subrange(first_nz(spec_diff(self@)), self@.len() as int),
            r@.len() >= 1,
    {
        let ghost s: Seq<int> = self@;
        let ghost d: Seq<int> = spec_diff(s);
        let len: usize = self.coef.len();
        let mut c: Vec<i128> = self.coef;
        let mut n: usize = len;
        while n > 1
            invariant
                1 <= n <= len || (len == 0 && n == 0),
                c@.len() == len,
                s.len() == len,
                d == spec_diff(s),
                forall|i: int|
                    1 <= i < len ==> i128::MIN <= #[trigger] (s[i - 1] * (len - i)) <= i128::MAX,
                forall|j: int| 0 <= j < n ==> as_ints(c@)[j] == s[j],
                forall|j: int| n <= j < len ==> as_ints(c@)[j] == d[j],
            decreases n,
        {
            n = n - 1;
            proof {
                assert(as_ints(c@)[n - 1] == c@[n - 1] as int);
                assert(d[n as int] == s[n - 1] * (len - n));
            }
            let value: i128 = c[n - 1] * ((len - n) as i128);
            c.set(n, value);
            proof {
                assert forall|j: int| 0 <= j < n implies as_ints(c@)[j] == s[j] by {
                    assert(as_ints(c@)[j] == c@[j] as int);
                }
            }
        }
        if len > 0 {
            c.set(0, 0);
        }
        proof {
            assert(forall|j: int| 0 <= j < len ==> as_ints(c@)[j] == #[trigger] d[j]);
            assert(as_ints(c@) =~= d);
            // The required nonzero coefficient below the top keeps the
            // derivative from being identically zero.
            let j = choose|j: int| 0 <= j < s.len() - 1 && s[j] != 0;
            assert(s[j] * (len - (j + 1)) != 0) by (nonlinear_arith)
                requires
                    s[j] != 0,
                    len - (j + 1) >= 1,
            ;
            assert(d[j + 1] != 0);
            lemma_first_nz_props(d, 0);
            if first_nz(d) == d.len() {
                assert(d[j + 1] == 0);
            }
        }
        let start: usize = find_first_nonzero(&c);
        let out: Vec<i128> = copy_range(&c, start, len);
        let r = Polynomial { coef: out };
        proof {
            assert(r@ =~= spec_diff(s).subrange(first_nz(spec_diff(s)), s.len() as int));
        }
        r
    }
}

/// `y` padded on the left with zeros to length `n`, every entry reduced to
/// its canonical residue modulo `p`.
pub open spec fn reduce_pad(y: Seq<int>, n: int, p: int) -> Seq<int> {
    Seq::new(n as nat, |i: int| pad_to(y, n)[i] % p)
}

/// The representative of the residue `x` in the symmetric range around
/// zero: residues of the upper half stand for negative integers.
pub open spec fn center(x: int, p: int) -> int {
    if 2 * x >= p {
        x - p
    } else {
        x
    }
}

/// Every entry of `y` replaced by its symmetric representative.
pub open spec fn center_all(y: Seq<int>, p: int) -> Seq<int> {
    Seq::new(y.len(), |i: int| center(y[i], p))
}

/// The transform-path product of `a` and `b` under the constants `c`: both
/// operands padded to the transform length and reduced, transformed,
/// multiplied pointwise, transformed back, mapped to symmetric
/// representatives, and cut down to the coefficients the degrees of the
/// operands call for, starting at the first nonzero entry.
pub open spec fn spec_ntt_mul(a: Seq<int>, b: Seq<int>, c: Constants) -> Seq<int> {
    let p = c.modulus as int;
    let n = spec_next_pow2((a.len() + b.len()) as int);
    let fa = spec_forward(reduce_pad(a, n, p), c);
    let fb = spec_forward(reduce_pad(b, n, p), c);
    let prod = Seq::new(n as nat, |i: int| (fa[i] * fb[i]) % p);
    let w = center_all(spec_inverse(prod, c), p);
    let width = spec_degree(a) + spec_degree(b) + 1;
    let start = vstd::math::min(first_nz(w), n - width);
    w.subrange(start, start + width)
}

/// `v` padded on the left with zeros to length `n`, entries reduced modulo
/// `p`.
fn pad_and_reduce(v: &Vec<i128>, n: usize, p: i128) -> (r: Vec<i128>)
    requires
        v@.len() <= n,
        1 < p <= MODULUS_CAP,
    ensures
        as_ints(r@) == reduce_pad(as_ints(v@), n as int, p as int),
        r@.len() == n,
        residues(as_ints(r@), p as int),
{
    let len: usize = v.len();
    let mut out: Vec<i128> = Vec::new();
    let mut i: usize = 0;
    proof {
        vstd::arithmetic::div_mod::lemma_small_mod(0nat, p as nat);
    }
    while i < n - len
        invariant
            0 <= i <= n - len,
            len <= n,
            out@.len() == i,
            forall|j: int| 0 <= j < i ==> out@[j] == 0i128,
        decreases n - len - i,
    {
        out.push(0);
        i = i + 1;
    }
    let mut k: usize = 0;
    while k < len
        invariant
            0 <= k <= len,
            len == v@.len(),
            len <= n,
            1 < p <= MODULUS_CAP,
            out@.len() == (n - len) + k,
            forall|j: int| 0 <= j < n - len ==> out@[j] == 0i128,
            forall|j: int|
                0 <= j < k ==> (#[trigger] out@[n - len + j]) as int == (v@[j] as int) % (p as int)
                    && 0 <= out@[n - len + j] < p,
        decreases len - k,
    {
        let red: i128 = mod_reduce(v[k], p);
        out.push(red);
        k = k + 1;
    }
    proof {
        let y = as_ints(v@);
        assert forall|i: int| 0 <= i < n implies as_ints(out@)[i] == reduce_pad(
            y,
            n as int,
            p as int,
        )[i] by {
            assert(as_ints(out@)[i] == out@[i] as int);
            if i < n - len {
                assert(pad_to(y, n as int)[i] == 0);
                assert(0int % (p as int) == 0) by {
                    vstd::arithmetic::div_mod::lemma_small_mod(0nat, p as nat);
                }
            } else {
                let j0: int = i - (n - len);
                assert(out@[n - len + j0] as int == (v@[j0] as int) % (p as int));
                assert(y[j0] == v@[j0] as int);
                assert(pad_to(y, n as int)[i] == y[j0]);
            }
        }
        assert(as_ints(out@) =~= reduce_pad(y, n as int, p as int));
    }
    out
}

/// Every entry replaced by its symmetric representative modulo `p`.
fn center_vec(v: &Vec<i128>, p: i128) -> (r: Vec<i128>)
    requires
        1 < p <= MODULUS_CAP,
        residues(as_ints(v@), p as int),
    ensures
        as_ints(r@) == center_all(as_ints(v@), p as int),
        r@.len() == v@.len(),
{
    let len: usize = v.len();
    let mut out: Vec<i128> = Vec::new();
    let mut i: usize = 0;
    while i < len
        invariant
            0 <= i <= len,
            len == v@.len(),
            1 < p <= MODULUS_CAP,
            residues(as_ints(v@), p as int),
            out@.len() == i,
            forall|j: int|
                0 <= j < i ==> (#[trigger] out@[j]) as int == center(v@[j] as int, p as int),
        decreases len - i,
    {
        proof {
            assert(as_ints(v@)[i as int] == v@[i as int] as int);
        }
        let x: i128 = v[i];
        if 2 * x >= p {
            out.push(x - p);
        } else {
            out.push(x);
        }
        i = i + 1;
    }
    proof {
        assert(as_ints(out@) =~= center_all(as_ints(v@), p as int));
    }
    out
}

impl Polynomial {
    /// Transform-path multiplication: both operands are padded to the
    /// transform length and reduced, forward-transformed, multiplied
    /// pointwise modulo the working modulus, inverse-transformed, mapped to
    /// symmetric representatives (so negative coefficients decode exactly
    /// when the modulus is large enough), and trimmed to the one-plus-sum of
    /// the operands' degrees, starting at the first nonzero entry. The
    /// constants must have been derived for this transform length; a bound
    /// too small for the true convolution wraps around silently, which is
    /// the caller's contract, not checked here.
    pub fn mul(self, rhs: Polynomial, c: &Constants) -> (r: Polynomial)
        requires
            exists|j: int| 0 <= j < self@.len() && self@[j] != 0,
            exists|j: int| 0 <= j < rhs@.len() && rhs@[j] != 0,
            self@.len() + rhs@.len() <= 0x1000_0000,
            constants_valid(*c, spec_next_pow2((self@.len() + rhs@.len()) as int)),
        ensures
            r@ == spec_ntt_mul(self@, rhs@, *c),
            r@.len() == spec_degree(self@) + spec_degree(rhs@) + 1,
    {
        let da: usize = self.degree();
        let db: usize = rhs.degree();
        let la: usize = self.len();
        let lb: usize = rhs.len();
        let n: usize = next_pow_two(la + lb);
        let p: i128 = c.modulus;
        let v1: Vec<i128> = pad_and_reduce(&self.coef, n, p);
        let v2: Vec<i128> = pad_and_reduce(&rhs.coef, n, p);
        let ghost ra: Seq<int> = as_ints(v1@);
        let ghost rb: Seq<int> = as_ints(v2@);
        let f1: Vec<i128> = forward(v1, c);
        let f2: Vec<i128> = forward(v2, c);
        let prod: Vec<i128> = pointwise_mod_mul(&f1, &f2, p);
        let ghost fa: Seq<int> = spec_forward(ra, *c);
        let ghost fb: Seq<int> = spec_forward(rb, *c);
        proof {
            assert(as_ints(prod@) =~= Seq::new(
                n as nat,
                |i: int| (fa[i] * fb[i]) % (p as int),
            )) by {
                assert forall|i: int| 0 <= i < n implies as_ints(prod@)[i] == (fa[i] * fb[i]) % (
                p as int) by {
                    assert(as_ints(prod@)[i] == prod@[i] as int);
                    assert(as_ints(f1@)[i] == f1@[i] as int);
                    assert(as_ints(f2@)[i] == f2@[i] as int);
                }
            }
        }
        let w: Vec<i128> = inverse(prod, c);
        let cent: Vec<i128> = center_vec(&w, p);
        let start0: usize = find_first_nonzero(&cent);
        let width: usize = da + db + 1;
        let lim: usize = n - width;
        let start: usize = if start0 > lim {
            lim
        } else {
            start0
        };
        let out: Vec<i128> = copy_range(&cent, start, start + width);
        let r = Polynomial { coef: out };
        proof {
            assert(r@ =~= spec_ntt_mul(self@, rhs@, *c));
        }
        r
    }
}

/// Adding a polynomial to its own negation gives the all-zero polynomial of
/// the same length.
pub proof fn lemma_add_neg_zero(s: Seq<int>)
    ensures
        spec_add(s, spec_neg(s)) == zeros(s.len() as int),
{
    assert(spec_add(s, spec_neg(s)) =~= zeros(s.len() as int));
}

/// Aligned addition is commutative.
pub proof fn lemma_add_comm(a: Seq<int>, b: Seq<int>)
    ensures
        spec_add(a, b) == spec_add(b, a),
{
    assert(spec_add(a, b) =~= spec_add(b, a));
}

/// The convolution of `a` and `b` restricted to the first `k` rows, as a
/// sequence of length `len` indexed by position sum.
pub open spec fn conv_partial_seq(a: Seq<int>, b: Seq<int>, k: int, len: int) -> Seq<int> {
    Seq::new(len as nat, |e: int| conv_prefix(a, b, e, k))
}

/// Evaluating a convolution, index as exponent, multiplies the two
/// evaluations: one row of the convolution at a time.
proof fn lemma_cauchy(a: Seq<int>, b: Seq<int>, t: int, k: int)
    requires
        1 <= a.len(),
        1 <= b.len(),
        0 <= k <= a.len(),
    ensures
        eval_prefix(
            conv_partial_seq(a, b, k, a.len() + b.len() - 1),
            t,
            a.len() + b.len() - 1,
        ) == eval_prefix(a, t, k) * eval_at(b, t),
    decreases k,
{
    let la = a.len() as int;
    let lb = b.len() as int;
    let ll = la + lb - 1;
    if k == 0 {
        lemma_eval_prefix_zero(conv_partial_seq(a, b, 0, ll), t, ll);
        assert(0 * eval_at(b, t) == 0) by (nonlinear_arith);
    } else {
        lemma_cauchy(a, b, t, k - 1);
        let prev = conv_partial_seq(a, b, k - 1, ll);
        let lay = Seq::new(ll as nat, |e: int| conv_term(a, b, e, k - 1));
        assert(conv_partial_seq(a, b, k, ll) =~= seq_sum(prev, lay));
        lemma_eval_prefix_linear(prev, lay, t, ll);
        // The new row is the second factor, scaled and shifted by one power.
        let s = Seq::new((ll - (k - 1)) as nat, |i: int| lay[k - 1 + i]);
        lemma_eval_prefix_zero(lay, t, k - 1);
        lemma_eval_prefix_split(lay, s, t, k - 1, ll - (k - 1));
        assert(forall|i: int| 0 <= i < lb ==> s[i] == a[k - 1] * b[i]);
        lemma_eval_prefix_scaled(s, b, a[k - 1], t, lb);
        lemma_eval_prefix_zero_tail(s, t, lb, ll - (k - 1));
        assert(eval_prefix(lay, t, ll) == pow(t, (k - 1) as nat) * (a[k - 1] * eval_at(b, t)));
        assert(eval_prefix(a, t, k - 1) * eval_at(b, t) + pow(t, (k - 1) as nat) * (a[k - 1]
            * eval_at(b, t)) == (eval_prefix(a, t, k - 1) + a[k - 1] * pow(t, (k - 1) as nat))
            * eval_at(b, t)) by (nonlinear_arith);
    }
}

/// Convolutions of entrywise-congruent sequences are congruent.
proof fn lemma_conv_prefix_congruent(
    a: Seq<int>,
    b: Seq<int>,
    a2: Seq<int>,
    b2: Seq<int>,
    e: int,
    i: int,
    p: int,
)
    requires
        1 < p,
        a.len() == a2.len(),
        b.len() == b2.len(),
        0 <= i <= a.len(),
        forall|r: int| 0 <= r < a.len() ==> #[trigger] (a[r] % p) == a2[r] % p,
        forall|r: int| 0 <= r < b.len() ==> #[trigger] (b[r] % p) == b2[r] % p,
    ensures
        conv_prefix(a, b, e, i) % p == conv_prefix(a2, b2, e, i) % p,
    decreases i,
{
    if i > 0 {
        lemma_conv_prefix_congruent(a, b, a2, b2, e, i - 1, p);
        assert(conv_term(a, b, e, i - 1) % p == conv_term(a2, b2, e, i - 1) % p) by {
            if 0 <= i - 1 < a.len() && 0 <= e - (i - 1) < b.len() {
                vstd::arithmetic::div_mod::lemma_mul_mod_noop_general(a[i - 1], b[e - (i - 1)], p);
                vstd::arithmetic::div_mod::lemma_mul_mod_noop_general(
                    a2[i - 1],
                    b2[e - (i - 1)],
                    p,
                );
            }
        }
        vstd::arithmetic::div_mod::lemma_add_mod_noop(
            conv_prefix(a, b, e, i - 1),
            conv_term(a, b, e, i - 1),
            p,
        );
        vstd::arithmetic::div_mod::lemma_add_mod_noop(
            conv_prefix(a2, b2, e, i - 1),
            conv_term(a2, b2, e, i - 1),
            p,
        );
    }
}

/// Rows whose first factor is zero contribute nothing.
proof fn lemma_conv_zero_rows(a: Seq<int>, b: Seq<int>, e: int, i: int)
    requires
        0 <= i <= a.len(),
        forall|r: int| 0 <= r < i ==> a[r] == 0,
    ensures
        conv_prefix(a, b, e, i) == 0,
    decreases i,
{
    if i > 0 {
        lemma_conv_zero_rows(a, b, e, i - 1);
        if 0 <= e - (i - 1) < b.len() {
            assert(0 * b[e - (i - 1)] == 0) by (nonlinear_arith);
        }
    }
}

/// Below the product of the two leading positions every convolution entry
/// is zero: each term has a zero factor.
proof fn lemma_conv_zero(a: Seq<int>, b: Seq<int>, a0: int, b0: int, e: int, i: int)
    requires
        0 <= a0 <= a.len(),
        0 <= b0 <= b.len(),
        0 <= i <= a.len(),
        forall|r: int| 0 <= r < a0 ==> a[r] == 0,
        forall|r: int| 0 <= r < b0 ==> b[r] == 0,
        e < a0 + b0,
    ensures
        conv_prefix(a, b, e, i) == 0,
    decreases i,
{
    if i > 0 {
        lemma_conv_zero(a, b, a0, b0, e, i - 1);
        if 0 <= i - 1 < a.len() && 0 <= e - (i - 1) < b.len() {
            if i - 1 < a0 {
                assert(0 * b[e - (i - 1)] == 0) by (nonlinear_arith);
            } else {
                assert(e - (i - 1) < b0);
                assert(a[i - 1] * 0 == 0) by (nonlinear_arith);
            }
        }
    }
}

/// At exactly the sum of the two leading positions only one term survives:
/// the product of the two leading entries.
proof fn lemma_conv_lead(a: Seq<int>, b: Seq<int>, a0: int, b0: int, i: int)
    requires
        0 <= a0 < a.len(),
        0 <= b0 < b.len(),
        0 <= i <= a.len(),
        forall|r: int| 0 <= r < a0 ==> a[r] == 0,
        forall|r: int| 0 <= r < b0 ==> b[r] == 0,
    ensures
        conv_prefix(a, b, a0 + b0, i) == if i > a0 {
            a[a0] * b[b0]
        } else {
            0
        },
    decreases i,
{
    if i > 0 {
        lemma_conv_lead(a, b, a0, b0, i - 1);
        let e = a0 + b0;
        if 0 <= i - 1 < a.len() && 0 <= e - (i - 1) < b.len() {
            if i - 1 < a0 {
                assert(0 * b[e - (i - 1)] == 0) by (nonlinear_arith);
            } else if i - 1 > a0 {
                assert(e - (i - 1) < b0);
                assert(a[i - 1] * 0 == 0) by (nonlinear_arith);
            }
        }
    }
}

/// Padding both operands on the left only shifts the convolution: the
/// padded convolution at a position offset by both paddings equals the
/// unpadded one.
proof fn lemma_conv_pad_shift(a: Seq<int>, b: Seq<int>, n: int, k: int, i: int)
    requires
        a.len() <= n,
        b.len() <= n,
        0 <= i <= a.len(),
    ensures
        conv_prefix(
            pad_to(a, n),
            pad_to(b, n),
            k + (n - a.len()) + (n - b.len()),
            (n - a.len()) + i,
        ) == conv_prefix(a, b, k, i),
    decreases i,
{
    let la = a.len() as int;
    let lb = b.len() as int;
    let oa = n - la;
    let ob = n - lb;
    let pa = pad_to(a, n);
    let pb = pad_to(b, n);
    let e = k + oa + ob;
    if i == 0 {
        assert(forall|r: int| 0 <= r < oa ==> pa[r] == 0);
        lemma_conv_zero_rows(pa, pb, e, oa);
    } else {
        lemma_conv_pad_shift(a, b, n, k, i - 1);
        let r = oa + i - 1;
        assert(pa[r] == a[i - 1]);
        if 0 <= k - (i - 1) < lb {
            assert(pb[e - r] == b[k - (i - 1)]);
        } else if k - (i - 1) < 0 {
            if 0 <= e - r < n {
                assert(e - r < ob);
                assert(pb[e - r] == 0);
                assert(a[i - 1] * 0 == 0) by (nonlinear_arith);
            }
        } else {
            assert(e - r >= n);
        }
    }
}

/// Reducing and then centering recovers any integer whose doubled magnitude
/// stays below the modulus.
proof fn lemma_center_exact(z: int, p: int)
    requires
        1 < p,
        2 * z < p,
        -p < 2 * z,
    ensures
        center(z % p, p) == z,
{
    if z >= 0 {
        vstd::arithmetic::div_mod::lemma_small_mod(z as nat, p as nat);
    } else {
        assert(z % p == z + p) by {
            vstd::arithmetic::div_mod::lemma_fundamental_div_mod_converse_mod(z, p, -1, z + p);
        }
        assert(2 * (z + p) >= p);
    }
}

/// The two multiplication paths agree: whenever the constants were derived
/// for the right transform length and the modulus exceeds twice the largest
/// possible convolution coefficient, the transform-path product is exactly
/// the brute-force convolution with its leading zeros trimmed, coefficient
/// by coefficient and not merely modulo the working modulus.
pub proof fn lemma_mul_paths_agree(a: Seq<int>, b: Seq<int>, c: Constants, bnd: int)
    requires
        exists|j: int| 0 <= j < a.len() && a[j] != 0,
        exists|j: int| 0 <= j < b.len() && b[j] != 0,
        constants_valid(c, spec_next_pow2((a.len() + b.len()) as int)),
        0 <= bnd,
        abs_bounded(a, bnd),
        abs_bounded(b, bnd),
        2 * (spec_next_pow2((a.len() + b.len()) as int) * bnd * bnd) < c.modulus,
    ensures
        spec_ntt_mul(a, b, c) == spec_conv(a, b).subrange(
            first_nz(spec_conv(a, b)),
            (a.len() + b.len()) as int,
        ),
{
    let p = c.modulus as int;
    let g = c.root as int;
    let la = a.len() as int;
    let lb = b.len() as int;
    let n = spec_next_pow2(la + lb);
    lemma_np2_bounds(la + lb);
    let pa = pad_to(a, n);
    let pb = pad_to(b, n);
    let ra = reduce_pad(a, n, p);
    let rb = reduce_pad(b, n, p);
    assert forall|r: int| 0 <= r < n implies #[trigger] (ra[r] % p) == pa[r] % p && 0 <= ra[r]
        < p by {
        vstd::arithmetic::div_mod::lemma_mod_twice(pa[r], p);
        vstd::arithmetic::div_mod::lemma_mod_bound(pa[r], p);
    }
    assert forall|r: int| 0 <= r < n implies #[trigger] (rb[r] % p) == pb[r] % p && 0 <= rb[r]
        < p by {
        vstd::arithmetic::div_mod::lemma_mod_twice(pb[r], p);
        vstd::arithmetic::div_mod::lemma_mod_bound(pb[r], p);
    }
    let fwa = spec_forward(ra, c);
    let fwb = spec_forward(rb, c);
    let prodspec = Seq::new(n as nat, |i: int| (fwa[i] * fwb[i]) % p);
    let fp = conv_partial_seq(ra, rb, n, 2 * n - 1);
    let fplow = Seq::new(n as nat, |e: int| fp[e]);
    let stail = Seq::new((n - 1) as nat, |i: int| fp[n + i]);
    let spad = Seq::new(n as nat, |e: int| if e < n - 1 { fp[n + e] } else { 0 });
    let w = seq_sum(fplow, spad);
    let wr = Seq::new(n as nat, |e: int| w[e] % p);
    assert forall|e: int| 0 <= e < n implies 0 <= #[trigger] wr[e] < p by {
        vstd::arithmetic::div_mod::lemma_mod_bound(w[e], p);
    }
    vstd::arithmetic::div_mod::lemma_small_mod(1nat, p as nat);
    // The pointwise product of the two transforms is the transform of the
    // folded convolution.
    assert forall|i: int| 0 <= i < n implies #[trigger] spec_forward(wr, c)[i] == prodspec[i] by {
        let t = pow(g, i as nat) % p;
        lemma_cauchy(ra, rb, t, n);
        lemma_eval_prefix_split(fp, stail, t, n, n - 1);
        lemma_eval_prefix_ext(fplow, fp, t, n);
        lemma_eval_prefix_zero_tail(spad, t, n - 1, n);
        lemma_eval_prefix_ext(spad, stail, t, n - 1);
        lemma_eval_prefix_linear(fplow, spad, t, n);
        let ehead = eval_prefix(fp, t, n);
        let etail = eval_prefix(stail, t, n - 1);
        assert(eval_at(w, t) == ehead + etail);
        assert(eval_at(fp, t) == ehead + pow(t, n as nat) * etail);
        assert(pow(t, n as nat) % p == 1) by {
            vstd::arithmetic::power::lemma_pow_mod_noop(pow(g, i as nat), n as nat, p);
            vstd::arithmetic::power::lemma_pow_multiplies(g, i as nat, n as nat);
            vstd::arithmetic::mul::lemma_mul_is_commutative(i, n);
            vstd::arithmetic::power::lemma_pow_multiplies(g, n as nat, i as nat);
            vstd::arithmetic::power::lemma_pow_mod_noop(pow(g, n as nat), i as nat, p);
            vstd::arithmetic::power::lemma1_pow(i as nat);
            assert(pow(pow(g, n as nat) % p, i as nat) == 1);
        }
        assert((ehead + pow(t, n as nat) * etail) % p == (ehead + etail) % p) by {
            vstd::arithmetic::div_mod::lemma_mul_mod_noop_left(pow(t, n as nat), etail, p);
            vstd::arithmetic::div_mod::lemma_add_mod_noop(ehead, pow(t, n as nat) * etail, p);
            vstd::arithmetic::div_mod::lemma_add_mod_noop(ehead, etail, p);
            assert((pow(t, n as nat) * etail) % p == (1 * etail) % p);
        }
        assert forall|e: int| 0 <= e < n implies #[trigger] (wr[e] % p) == w[e] % p by {
            vstd::arithmetic::div_mod::lemma_mod_twice(w[e], p);
        }
        lemma_eval_prefix_congruent(wr, w, t, n, p);
        assert(spec_forward(wr, c)[i] == eval_at(wr, t) % p);
        assert(eval_at(wr, t) % p == eval_at(fp, t) % p);
        assert(eval_at(fp, t) == eval_at(ra, t) * eval_at(rb, t));
        assert((eval_at(ra, t) * eval_at(rb, t)) % p == ((eval_at(ra, t) % p) * (eval_at(rb, t)
            % p)) % p) by {
            vstd::arithmetic::div_mod::lemma_mul_mod_noop_general(
                eval_at(ra, t),
                eval_at(rb, t),
                p,
            );
        }
        assert(fwa[i] == eval_at(ra, t) % p && fwb[i] == eval_at(rb, t) % p);
    }
    assert(spec_forward(wr, c) =~= prodspec);
    lemma_round_trip(wr, c);
    assert(spec_inverse(prodspec, c) == wr);
    // Where the true coefficients live: positions of the leading entries.
    lemma_first_nz_props(a, 0);
    lemma_first_nz_props(b, 0);
    let za = first_nz(a);
    let zb = first_nz(b);
    assert(za < la) by {
        if za == la {
            let j = choose|j: int| 0 <= j < a.len() && a[j] != 0;
            assert(a[j] == 0);
        }
    }
    assert(zb < lb) by {
        if zb == lb {
            let j = choose|j: int| 0 <= j < b.len() && b[j] != 0;
            assert(b[j] == 0);
        }
    }
    let a0 = n - la + za;
    let b0 = n - lb + zb;
    let e0 = a0 + b0 - n;
    let width = la + lb - 1 - za - zb;
    assert(forall|r: int| 0 <= r < a0 ==> pa[r] == 0);
    assert(forall|r: int| 0 <= r < b0 ==> pb[r] == 0);
    assert(abs_bounded(pa, bnd) && abs_bounded(pb, bnd));
    let cent = center_all(wr, p);
    // Every centered entry is a true convolution coefficient of the padded
    // operands, shifted down by the transform length.
    assert forall|e: int| 0 <= e < n - 1 implies #[trigger] cent[e] == conv_prefix(
        pa,
        pb,
        n + e,
        n,
    ) by {
        lemma_conv_prefix_congruent(ra, rb, pa, pb, e, n, p);
        lemma_conv_prefix_congruent(ra, rb, pa, pb, n + e, n, p);
        lemma_conv_zero(pa, pb, a0, b0, e, n);
        assert(w[e] == fp[e] + fp[n + e]);
        let cv2 = conv_prefix(pa, pb, n + e, n);
        assert(w[e] % p == cv2 % p) by {
            vstd::arithmetic::div_mod::lemma_add_mod_noop(fp[e], fp[n + e], p);
            vstd::arithmetic::div_mod::lemma_add_mod_noop(
                conv_prefix(pa, pb, e, n),
                cv2,
                p,
            );
            vstd::arithmetic::div_mod::lemma_mod_twice(fp[e] + fp[n + e], p);
            vstd::arithmetic::div_mod::lemma_mod_twice(0 + cv2, p);
        }
        lemma_conv_prefix_bound(pa, pb, n + e, n, bnd);
        assert(2 * (n * bnd * bnd) < p);
        lemma_center_exact(cv2, p);
        assert(wr[e] == cv2 % p);
    }
    assert(cent[n - 1] == 0) by {
        lemma_conv_prefix_congruent(ra, rb, pa, pb, n - 1, n, p);
        lemma_conv_zero(pa, pb, a0, b0, n - 1, n);
        assert(w[n - 1] == fp[n - 1] + 0);
        assert(w[n - 1] % p == 0) by {
            vstd::arithmetic::div_mod::lemma_mod_twice(fp[n - 1], p);
            vstd::arithmetic::div_mod::lemma_small_mod(0nat, p as nat);
        }
        assert(wr[n - 1] == 0);
    }
    // The first nonzero centered entry is the product of the two leading
    // coefficients.
    assert(1 <= width && 0 <= e0 && e0 + width == n - 1);
    assert forall|e: int| 0 <= e < e0 implies #[trigger] cent[e] == 0 by {
        lemma_conv_zero(pa, pb, a0, b0, n + e, n);
    }
    assert(cent[e0] != 0) by {
        lemma_conv_lead(pa, pb, a0, b0, n);
        assert(conv_prefix(pa, pb, n + e0, n) == pa[a0] * pb[b0]);
        assert(pa[a0] == a[za] && pb[b0] == b[zb]);
        assert(a[za] * b[zb] != 0) by (nonlinear_arith)
            requires
                a[za] != 0,
                b[zb] != 0,
        ;
    }
    lemma_first_nz_props(cent, 0);
    assert(first_nz(cent) == e0) by {
        if first_nz(cent) < e0 {
            assert(cent[first_nz(cent)] == 0);
        }
        if first_nz(cent) > e0 {
            assert(cent[e0] == 0);
        }
    }
    // Both trims therefore select the same window of true coefficients.
    let cv = spec_conv(a, b);
    assert forall|e: int| 0 <= e < 1 + za + zb implies #[trigger] cv[e] == 0 by {
        lemma_conv_zero(a, b, za, zb, e - 1, la);
    }
    assert(cv[1 + za + zb] != 0) by {
        lemma_conv_lead(a, b, za, zb, la);
        assert(conv_prefix(a, b, za + zb, la) == a[za] * b[zb]);
        assert(a[za] * b[zb] != 0) by (nonlinear_arith)
            requires
                a[za] != 0,
                b[zb] != 0,
        ;
    }
    lemma_first_nz_props(cv, 0);
    assert(first_nz(cv) == 1 + za + zb) by {
        assert(1 + za + zb < cv.len());
        if first_nz(cv) < 1 + za + zb {
            assert(cv[first_nz(cv)] == 0);
        }
        if first_nz(cv) > 1 + za + zb {
            assert(cv[1 + za + zb] == 0);
        }
    }
    assert(spec_degree(a) == la - 1 - za && spec_degree(b) == lb - 1 - zb);
    assert(vstd::math::min(first_nz(cent), n - width) == e0);
    assert forall|s: int| 0 <= s < width implies #[trigger] cent[e0 + s] == cv[1 + za + zb
        + s] by {
        lemma_conv_pad_shift(a, b, n, za + zb + s, la);
        assert(conv_prefix(pa, pb, (za + zb + s) + (n - la) + (n - lb), (n - la) + la)
            == conv_prefix(a, b, za + zb + s, la));
        assert((za + zb + s) + (n - la) + (n - lb) == n + e0 + s);
        assert(cent[e0 + s] == conv_prefix(pa, pb, n + e0 + s, n));
        assert(cv[1 + za + zb + s] == conv_prefix(a, b, za + zb + s, la));
    }
    assert(spec_ntt_mul(a, b, c) == cent.subrange(e0, e0 + width)) by {
        assert(spec_ntt_mul(a, b, c) =~= cent.subrange(e0, e0 + width));
    }
    assert forall|s: int| 0 <= s < width implies #[trigger] cent.subrange(e0, e0 + width)[s]
        == cv.subrange(first_nz(cv), la + lb)[s] by {
        assert(cent.subrange(e0, e0 + width)[s] == cent[e0 + s]);
        assert(cv.subrange(first_nz(cv), la + lb)[s] == cv[1 + za + zb + s]);
    }
    assert(cent.subrange(e0, e0 + width) =~= cv.subrange(first_nz(cv), la + lb));
}

/// Padding to a power of two is idempotent: a sequence whose length is
/// already a power of two is left unchanged, so normalizing twice gives the
/// same sequence as normalizing once.
pub proof fn lemma_new_idempotent(s: Seq<int>)
    requires
        s.len() >= 1,
    ensures
        spec_new_poly(spec_new_poly(s)) == spec_new_poly(s),
        spec_new_poly(s).len() == spec_next_pow2(s.len() as int),
        spec_new_poly(s).len() >= s.len(),
        spec_is_pow2(spec_new_poly(s).len() as int),
{
    lemma_np2_bounds(s.len() as int);
    lemma_np2_fixed(spec_next_pow2(s.len() as int));
    assert(spec_new_poly(spec_new_poly(s)) =~= spec_new_poly(s));
}

} // verus!

