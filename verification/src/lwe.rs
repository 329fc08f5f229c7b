//! A toy learning-with-errors scheme over `i32` coefficients: key generation,
//! encryption of one integer message and the inner-product decryption step.

use rand::Rng;
use vstd::prelude::*;

verus! {

/// Number of coefficients in a key and in the masked part of a ciphertext.
pub const N: usize = 512;

/// Modulus of the scheme.
pub const Q: i32 = 12289;

/// Remainder of `x` by `q` with the sign of `x`, as Rust's `%` computes it on integers.
pub open spec fn trunc_rem(x: int, q: int) -> int {
    if x >= 0 {
        x % q
    } else {
        -((-x) % q)
    }
}

/// `v` holds exactly `N` values, each drawn from `0..Q`.
pub open spec fn is_sample_vector(v: Seq<i32>) -> bool {
    &&& v.len() == N
    &&& forall|i: int| 0 <= i < v.len() ==> 0 <= #[trigger] v[i] < Q
}

/// The masked coefficient `(a * s + e) % Q` of a ciphertext.
pub open spec fn masked_coeff(a: i32, s: i32, e: i32) -> int {
    trunc_rem(a * s + e, Q as int)
}

/// The ciphertext for key `s`, masks `a`, noise `e` and message `m`: the `N` masked
/// coefficients followed by the message itself.
pub open spec fn ciphertext(s: Seq<i32>, a: Seq<i32>, e: Seq<i32>, m: i32) -> Seq<i32> {
    Seq::new(
        (N + 1) as nat,
        |i: int|
            if i < N {
                masked_coeff(a[i], s[i], e[i]) as i32
            } else {
                m
            },
    )
}

/// Every product `a * x + e` with `a` and `e` in `0..Q` fits in an `i32`.
pub open spec fn mask_safe(x: i32) -> bool {
    &&& (Q - 1) * x >= i32::MIN
    &&& (Q - 1) * x + (Q - 1) <= i32::MAX
}

/// The products `a[i] * s[i]` and the sums `a[i] * s[i] + e[i]` all fit in an `i32`.
pub open spec fn masking_fits(s: Seq<i32>, a: Seq<i32>, e: Seq<i32>) -> bool {
    forall|i: int|
        0 <= i < N ==> {
            &&& i32::MIN <= #[trigger] (a[i] * s[i]) <= i32::MAX
            &&& i32::MIN <= a[i] * s[i] + e[i] <= i32::MAX
        }
}

/// Sum of `s[i] * b[i]` over `i < k`.
pub open spec fn dot_prefix(s: Seq<i32>, b: Seq<i32>, k: int) -> int
    decreases k,
{
    if k <= 0 {
        0
    } else {
        dot_prefix(s, b, k - 1) + s[k - 1] * b[k - 1]
    }
}

/// Each product `s[k] * b[k]` and each running sum of them, for `k < N`, fits in an `i32`.
pub open spec fn dot_fits(s: Seq<i32>, b: Seq<i32>) -> bool {
    forall|k: int|
        0 <= k < N ==> {
            &&& i32::MIN <= #[trigger] (s[k] * b[k]) <= i32::MAX
            &&& i32::MIN <= dot_prefix(s, b, k + 1) <= i32::MAX
        }
}

#[verifier::external_type_specification]
#[verifier::external_body]
pub struct ExThreadRng(rand::rngs::ThreadRng);

/// Calls `rand::thread_rng`, the handle to the thread-local generator; nothing is
/// claimed of the handle.
#[verifier::external_body]
fn new_thread_rng() -> rand::rngs::ThreadRng {
    rand::thread_rng()
}

/// Calls `Rng::gen_range` on `low..high`. Claimed: the value lies in `low..high`;
/// which value comes is chance. The source asserts the range is not empty, so that
/// is required.
#[verifier::external_body]
fn gen_range(rng: &mut rand::rngs::ThreadRng, low: i32, high: i32) -> (r: i32)
    requires
        low < high,
    ensures
        low <= r < high,
{
    rng.gen_range(low..high)
}

/// Draws two vectors of `N` values from `0..Q`, alternating between them: the `i`-th
/// value of the first, then the `i`-th value of the second.
fn sample_pair(rng: &mut rand::rngs::ThreadRng) -> (res: (Vec<i32>, Vec<i32>))
    ensures
        is_sample_vector(res.0@),
        is_sample_vector(res.1@),
{
    let mut x: Vec<i32> = Vec::with_capacity(N);
    let mut y: Vec<i32> = Vec::with_capacity(N);
    let mut i: usize = 0;
    while i < N
        invariant
            i <= N,
            x@.len() == i,
            y@.len() == i,
            forall|j: int| 0 <= j < x@.len() ==> 0 <= #[trigger] x@[j] < Q,
            forall|j: int| 0 <= j < y@.len() ==> 0 <= #[trigger] y@[j] < Q,
        decreases N - i,
    {
        let u = gen_range(rng, 0, Q);
        x.push(u);
        let v = gen_range(rng, 0, Q);
        y.push(v);
        i = i + 1;
    }
    (x, y)
}

/// Generates a secret key `s` and a noise vector `e`, each of `N` values drawn from `0..Q`.
pub fn keygen() -> (res: (Vec<i32>, Vec<i32>))
    ensures
        is_sample_vector(res.0@),
        is_sample_vector(res.1@),
{
    let mut rng = new_thread_rng();
    sample_pair(&mut rng)
}

/// Encrypts `m` under key `s` with the given masks `a` and noise `e`:
/// `b[i] = (a[i] * s[i] + e[i]) % Q` for `i < N`, then `m`.
pub fn encrypt_with_noise(s: &Vec<i32>, a: &Vec<i32>, e: &Vec<i32>, m: i32) -> (b: Vec<i32>)
    requires
        s@.len() >= N,
        a@.len() >= N,
        e@.len() >= N,
        masking_fits(s@, a@, e@),
    ensures
        b@ == ciphertext(s@, a@, e@, m),
{
    let mut b: Vec<i32> = Vec::with_capacity(N);
    let mut i: usize = 0;
    while i < N
        invariant
            i <= N,
            s@.len() >= N,
            a@.len() >= N,
            e@.len() >= N,
            masking_fits(s@, a@, e@),
            b@.len() == i,
            forall|j: int| 0 <= j < i ==> #[trigger] b@[j] == masked_coeff(a@[j], s@[j], e@[j]),
        decreases N - i,
    {
        assert(i32::MIN <= a@[i as int] * s@[i as int] <= i32::MAX);
        let prod = a[i] * s[i];
        let c = (prod + e[i]) % Q;
        b.push(c);
        i = i + 1;
    }
    b.push(m);
    assert(b@ =~= ciphertext(s@, a@, e@, m));
    b
}

/// Masks drawn from `0..Q` keep `a * x + e` inside `i32` when `x` is `mask_safe`.
proof fn lemma_sampled_masking_fits(s: Seq<i32>, a: Seq<i32>, e: Seq<i32>)
    requires
        s.len() >= N,
        is_sample_vector(a),
        is_sample_vector(e),
        forall|i: int| 0 <= i < N ==> mask_safe(#[trigger] s[i]),
    ensures
        masking_fits(s, a, e),
{
    assert forall|i: int| 0 <= i < N implies {
        &&& i32::MIN <= #[trigger] (a[i] * s[i]) <= i32::MAX
        &&& i32::MIN <= a[i] * s[i] + e[i] <= i32::MAX
    } by {
        let x = s[i] as int;
        let y = a[i] as int;
        assert(mask_safe(s[i]));
        assert(0 <= y < Q);
        if x >= 0 {
            assert(y * x <= (Q - 1) * x) by (nonlinear_arith)
                requires 0 <= y <= Q - 1, x >= 0;
            assert(y * x >= 0) by (nonlinear_arith)
                requires 0 <= y, x >= 0;
        } else {
            assert(y * x >= (Q - 1) * x) by (nonlinear_arith)
                requires 0 <= y <= Q - 1, x < 0;
            assert(y * x <= 0) by (nonlinear_arith)
                requires 0 <= y, x < 0;
        }
    }
}

/// Encrypts the message `m` under key `s`: fresh masks and noise are drawn from `0..Q`,
/// and the ciphertext holds `(a[i] * s[i] + e[i]) % Q` for `i < N`, then `m`.
pub fn encrypt(s: &Vec<i32>, m: i32) -> (b: Vec<i32>)
    requires
        s@.len() >= N,
        forall|i: int| 0 <= i < N ==> mask_safe(#[trigger] s@[i]),
    ensures
        exists|a: Seq<i32>, e: Seq<i32>|
            #![trigger ciphertext(s@, a, e, m)]
            is_sample_vector(a) && is_sample_vector(e) && b@ == ciphertext(s@, a, e, m),
{
    let mut rng = new_thread_rng();
    let (a, e) = sample_pair(&mut rng);
    proof {
        lemma_sampled_masking_fits(s@, a@, e@);
    }
    let b = encrypt_with_noise(s, &a, &e, m);
    assert(is_sample_vector(a@) && is_sample_vector(e@) && b@ == ciphertext(s@, a@, e@, m));
    b
}

/// Decrypts by the inner product of the first `N` coefficients of key and ciphertext,
/// reduced by `Q`: `(sum of s[i] * b[i] for i < N) % Q`.
pub fn decrypt(s: &Vec<i32>, b: &Vec<i32>) -> (r: i32)
    requires
        s@.len() >= N,
        b@.len() >= N,
        dot_fits(s@, b@),
    ensures
        r == trunc_rem(dot_prefix(s@, b@, N as int), Q as int),
{
    let mut sum: i32 = 0;
    let mut i: usize = 0;
    while i < N
        invariant
            i <= N,
            s@.len() >= N,
            b@.len() >= N,
            dot_fits(s@, b@),
            sum == dot_prefix(s@, b@, i as int),
        decreases N - i,
    {
        assert(i32::MIN <= s@[i as int] * b@[i as int] <= i32::MAX);
        assert(i32::MIN <= dot_prefix(s@, b@, i + 1) <= i32::MAX);
        sum += s[i] * b[i];
        i = i + 1;
    }
    sum % Q
}

/// Keys drawn by `keygen` are always accepted by `encrypt`: every coefficient in `0..Q`
/// keeps the masking products inside `i32`.
pub proof fn lemma_sampled_keys_are_mask_safe(s: Seq<i32>)
    requires
        is_sample_vector(s),
    ensures
        forall|i: int| 0 <= i < N ==> mask_safe(#[trigger] s[i]),
{
    assert forall|i: int| 0 <= i < N implies mask_safe(#[trigger] s[i]) by {
        let x = s[i] as int;
        assert(0 <= x < Q);
        assert((Q - 1) * x <= (Q - 1) * (Q - 1)) by (nonlinear_arith)
            requires 0 <= x <= Q - 1;
        assert((Q - 1) * x >= 0) by (nonlinear_arith)
            requires 0 <= x;
    }
}

/// Whether `encrypt` accepts the key `s`: it holds at least `N` coefficients and each
/// keeps every masking product inside `i32`.
pub fn keys_mask_safe(s: &Vec<i32>) -> (ok: bool)
    ensures
        ok <==> (s@.len() >= N && forall|i: int| 0 <= i < N ==> mask_safe(#[trigger] s@[i])),
{
    if s.len() < N {
        return false;
    }
    let mut i: usize = 0;
    while i < N
        invariant
            i <= N,
            s@.len() >= N,
            forall|k: int| 0 <= k < i ==> mask_safe(#[trigger] s@[k]),
        decreases N - i,
    {
        let x = s[i] as i64;
        assert(12288 * x <= 12288 * 0x7fff_ffff && 12288 * x >= 12288 * -0x8000_0000)
            by (nonlinear_arith)
            requires
                -0x8000_0000 <= x <= 0x7fff_ffff,
        ;
        let v = (Q as i64 - 1) * x;
        if v < i32::MIN as i64 || v + (Q as i64 - 1) > i32::MAX as i64 {
            assert(!mask_safe(s@[i as int]));
            return false;
        }
        i = i + 1;
    }
    true
}

/// Whether `decrypt` accepts key `s` and ciphertext `b`: both hold at least `N` values,
/// and every product and running sum of the inner product fits in an `i32`.
pub fn inner_product_fits(s: &Vec<i32>, b: &Vec<i32>) -> (ok: bool)
    ensures
        ok <==> (s@.len() >= N && b@.len() >= N && dot_fits(s@, b@)),
{
    if s.len() < N || b.len() < N {
        return false;
    }
    let mut sum: i64 = 0;
    let mut i: usize = 0;
    while i < N
        invariant
            i <= N,
            s@.len() >= N,
            b@.len() >= N,
            sum == dot_prefix(s@, b@, i as int),
            i32::MIN <= sum <= i32::MAX,
            forall|k: int|
                0 <= k < i ==> {
                    &&& i32::MIN <= #[trigger] (s@[k] * b@[k]) <= i32::MAX
                    &&& i32::MIN <= dot_prefix(s@, b@, k + 1) <= i32::MAX
                },
        decreases N - i,
    {
        let x = s[i] as i64;
        let y = b[i] as i64;
        assert(-0x8000_0000 <= x <= 0x7fff_ffff);
        assert(x * y <= 0x4000_0000_0000_0000 && x * y >= -0x4000_0000_0000_0000) by (nonlinear_arith)
            requires
                -0x8000_0000 <= x <= 0x7fff_ffff,
                -0x8000_0000 <= y <= 0x7fff_ffff,
        ;
        let prod = x * y;
        if prod < i32::MIN as i64 || prod > i32::MAX as i64 {
            return false;
        }
        let next = sum + prod;
        if next < i32::MIN as i64 || next > i32::MAX as i64 {
            return false;
        }
        sum = next;
        i = i + 1;
    }
    true
}

/// The inner product starts at 0 and adds `s[k] * b[k]` for each index `k` in turn.
pub proof fn lemma_dot_prefix_steps(s: Seq<i32>, b: Seq<i32>, k: int)
    requires
        0 <= k,
    ensures
        dot_prefix(s, b, 0) == 0,
        dot_prefix(s, b, k + 1) == dot_prefix(s, b, k) + s[k] * b[k],
{
}

/// Coefficients where `b` is zero add nothing: a ciphertext that is zero below `k` except
/// at one index `j` has inner product `s[j] * b[j]` over the first `k` coefficients.
pub proof fn lemma_dot_prefix_single(s: Seq<i32>, b: Seq<i32>, j: int, k: int)
    requires
        0 <= j < k,
        forall|i: int| 0 <= i < k && i != j ==> b[i] == 0,
    ensures
        dot_prefix(s, b, k) == s[j] * b[j],
    decreases k,
{
    if k - 1 > j {
        lemma_dot_prefix_single(s, b, j, k - 1);
        assert(b[k - 1] == 0);
        assert(s[k - 1] * b[k - 1] == 0) by (nonlinear_arith)
            requires
                b[k - 1] == 0,
        ;
    } else {
        lemma_dot_prefix_zero(s, b, j);
    }
}

/// Over coefficients where `b` is zero the inner product is zero.
proof fn lemma_dot_prefix_zero(s: Seq<i32>, b: Seq<i32>, k: int)
    requires
        0 <= k,
        forall|i: int| 0 <= i < k ==> b[i] == 0,
    ensures
        dot_prefix(s, b, k) == 0,
    decreases k,
{
    if k > 0 {
        lemma_dot_prefix_zero(s, b, k - 1);
        assert(b[k - 1] == 0);
        assert(s[k - 1] * b[k - 1] == 0) by (nonlinear_arith)
            requires
                b[k - 1] == 0,
        ;
    }
}

/// Decryption reads every one of the first `N` coefficients: a ciphertext whose only
/// non-zero coefficient below `N` is `b[j]` decrypts to `(s[j] * b[j]) % Q`, whichever
/// `j < N` it is.
pub proof fn lemma_decrypt_single_coefficient(s: Seq<i32>, b: Seq<i32>, j: int)
    requires
        0 <= j < N,
        forall|i: int| 0 <= i < N && i != j ==> b[i] == 0,
    ensures
        trunc_rem(dot_prefix(s, b, N as int), Q as int) == trunc_rem(s[j] * b[j], Q as int),
{
    lemma_dot_prefix_single(s, b, j, N as int);
}

/// The reduction by `Q` leaves non-negative values below `Q` alone, keeps the sign of its
/// argument, and differs from it by a multiple of `Q`.
pub proof fn lemma_trunc_rem(x: int)
    ensures
        0 <= x < Q ==> trunc_rem(x, Q as int) == x,
        x >= 0 ==> 0 <= trunc_rem(x, Q as int) < Q,
        x < 0 ==> -Q < trunc_rem(x, Q as int) <= 0,
        (x - trunc_rem(x, Q as int)) % (Q as int) == 0,
{
    let q = Q as int;
    if x >= 0 {
        assert(x == q * (x / q) + x % q) by (nonlinear_arith)
            requires q > 0;
        assert((x - x % q) == q * (x / q));
        assert(q * (x / q) == (x / q) * q) by (nonlinear_arith);
        vstd::arithmetic::div_mod::lemma_mod_multiples_basic(x / q, q);
    } else {
        let y = -x;
        assert(y == q * (y / q) + y % q) by (nonlinear_arith)
            requires q > 0;
        assert(x - (-(y % q)) == -(q * (y / q)));
        assert(-(q * (y / q)) == (-(y / q)) * q) by (nonlinear_arith);
        vstd::arithmetic::div_mod::lemma_mod_multiples_basic(-(y / q), q);
    }
}

} // verus!
