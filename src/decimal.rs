use vstd::prelude::*;
use vstd::arithmetic::div_mod::lemma_fundamental_div_mod_converse;

verus! {

/// `10` to the power `k`.
pub open spec fn pow10(k: nat) -> nat
    decreases k,
{
    if k == 0 {
        1
    } else {
        10 * pow10((k - 1) as nat)
    }
}

/// The ASCII digit for `d` in `0..10`.
pub open spec fn ascii_digit(d: nat) -> u8 {
    (48 + d) as u8
}

/// The last `k` decimal digits of `v`, with leading zeros where `v` is short.
pub open spec fn padded(v: nat, k: nat) -> Seq<u8>
    decreases k,
{
    if k == 0 {
        Seq::empty()
    } else {
        padded(v / 10, (k - 1) as nat).push(ascii_digit(v % 10))
    }
}

/// How many decimal digits `v` has: 1 for 0 to 9, one more for each factor of ten.
pub open spec fn digit_count(v: nat) -> nat
    decreases v,
{
    if v < 10 {
        1
    } else {
        1 + digit_count(v / 10)
    }
}

/// The minimal decimal text of `v`: no sign, no leading zero, "0" for zero.
pub open spec fn decimal(v: nat) -> Seq<u8> {
    padded(v, digit_count(v))
}

pub proof fn lemma_pow10_positive(k: nat)
    ensures
        pow10(k) >= 1,
    decreases k,
{
    if k > 0 {
        lemma_pow10_positive((k - 1) as nat);
    }
}

/// `pow10` is strictly increasing.
pub proof fn lemma_pow10_increasing(j: nat, k: nat)
    requires
        j < k,
    ensures
        pow10(j) < pow10(k),
    decreases k,
{
    lemma_pow10_positive((k - 1) as nat);
    if j + 1 < k {
        lemma_pow10_increasing(j, (k - 1) as nat);
    }
}

pub proof fn lemma_pow10_add(j: nat, k: nat)
    ensures
        pow10(j + k) == pow10(j) * pow10(k),
    decreases k,
{
    if k > 0 {
        lemma_pow10_add(j, (k - 1) as nat);
        assert(pow10(j + k) == 10 * pow10((j + (k - 1)) as nat));
        let a = pow10(j);
        let b = pow10((k - 1) as nat);
        assert(pow10(k) == 10 * b);
        assert(a * (10 * b) == 10 * (a * b)) by (nonlinear_arith);
        assert(pow10(j + k) == a * pow10(k));
    } else {
        assert(pow10(k) == 1);
        assert(pow10(j + k) == pow10(j));
    }
}

pub broadcast proof fn lemma_padded_len(v: nat, k: nat)
    ensures
        #[trigger] padded(v, k).len() == k,
    decreases k,
{
    if k > 0 {
        lemma_padded_len(v / 10, (k - 1) as nat);
    }
}

/// Dropping the last digit of `a * 10^k + b` drops the last digit of `b`.
proof fn lemma_shift_step(a: nat, b: nat, k: nat)
    requires
        k >= 1,
        b < pow10(k),
    ensures
        (a * pow10(k) + b) / 10 == a * pow10((k - 1) as nat) + b / 10,
        (a * pow10(k) + b) % 10 == b % 10,
        b / 10 < pow10((k - 1) as nat),
{
    let p = pow10((k - 1) as nat);
    let x = a * pow10(k) + b;
    assert(x == (a * p + b / 10) * 10 + b % 10) by (nonlinear_arith)
        requires
            pow10(k) == 10 * p,
            x == a * pow10(k) + b,
            b == (b / 10) * 10 + b % 10,
    ;
    lemma_fundamental_div_mod_converse(x as int, 10, (a * p + b / 10) as int, (b % 10) as int);
}

/// The digits of `a * 10^k + b`, for `b` below `10^k`, are those of `a` followed by
/// the `k` digits of `b`.
pub proof fn lemma_padded_split(a: nat, b: nat, j: nat, k: nat)
    requires
        b < pow10(k),
    ensures
        padded(a * pow10(k) + b, j + k) == padded(a, j) + padded(b, k),
    decreases k,
{
    if k == 0 {
        assert(padded(a, j) + padded(b, 0) =~= padded(a, j));
    } else {
        lemma_shift_step(a, b, k);
        lemma_padded_split(a, b / 10, j, (k - 1) as nat);
        let x = a * pow10(k) + b;
        assert(padded(x, j + k) == padded(x / 10, (j + k - 1) as nat).push(ascii_digit(x % 10)));
        assert(padded(a, j) + padded(b, k) =~= (padded(a, j) + padded(b / 10, (k - 1) as nat)).push(
            ascii_digit(b % 10),
        ));
    }
}

/// A value in `[10^(n-1), 10^n)` has `n` digits.
pub proof fn lemma_digit_count_exact(v: nat, n: nat)
    requires
        n >= 1,
        v < pow10(n),
        n == 1 || pow10((n - 1) as nat) <= v,
    ensures
        digit_count(v) == n,
    decreases n,
{
    if n > 1 {
        lemma_shift_step(0, v, n);
        let below = pow10((n - 2) as nat);
        assert(pow10((n - 1) as nat) == 10 * below);
        assert(n - 1 == 1 || v / 10 >= below) by (nonlinear_arith)
            requires
                v >= 10 * below,
        ;
        lemma_digit_count_exact(v / 10, (n - 1) as nat);
    } else {
        reveal_with_fuel(pow10, 2);
    }
}

/// Every value lies in the range of its digit count.
pub proof fn lemma_digit_count_bounds(v: nat)
    ensures
        digit_count(v) >= 1,
        v < pow10(digit_count(v)),
        digit_count(v) == 1 || pow10((digit_count(v) - 1) as nat) <= v,
    decreases v,
{
    if v < 10 {
        reveal_with_fuel(pow10, 2);
    } else {
        lemma_digit_count_bounds(v / 10);
        let n = digit_count(v / 10);
        assert(v < 10 * pow10(n) && (n == 1 ==> 10 <= v) && (n > 1 ==> 10 * pow10((n - 1) as nat) <= v))
            by (nonlinear_arith)
            requires
                v / 10 < pow10(n),
                n > 1 ==> pow10((n - 1) as nat) <= v / 10,
                v >= 10,
        ;
    }
}

/// Writing a value with exactly its own number of digits gives its decimal text.
pub proof fn lemma_decimal_exact(v: nat, n: nat)
    requires
        n >= 1,
        v < pow10(n),
        n == 1 || pow10((n - 1) as nat) <= v,
    ensures
        decimal(v) == padded(v, n),
{
    lemma_digit_count_exact(v, n);
}

/// The decimal text of `q * 10^k + r`, for `q >= 1` and `r` below `10^k`: that of `q`
/// followed by the `k` digits of `r`.
pub proof fn lemma_decimal_split(q: nat, r: nat, k: nat)
    requires
        q >= 1,
        r < pow10(k),
    ensures
        decimal(q * pow10(k) + r) == decimal(q) + padded(r, k),
        digit_count(q * pow10(k) + r) == digit_count(q) + k,
{
    let n = digit_count(q);
    lemma_digit_count_bounds(q);
    lemma_pow10_add(n, k);
    lemma_pow10_add((n - 1) as nat, k);
    lemma_pow10_positive(k);
    let v = q * pow10(k) + r;
    assert(v < pow10(n) * pow10(k)) by (nonlinear_arith)
        requires
            q < pow10(n),
            r < pow10(k),
            v == q * pow10(k) + r,
    ;
    if n > 1 {
        assert(pow10((n - 1) as nat) * pow10(k) <= v) by (nonlinear_arith)
            requires
                pow10((n - 1) as nat) <= q,
                v == q * pow10(k) + r,
        ;
    } else {
        assert(pow10(k) <= v) by (nonlinear_arith)
            requires
                q >= 1,
                v == q * pow10(k) + r,
        ;
    }
    assert((n + k - 1) as nat == (n - 1) as nat + k);
    if k == 0 {
        lemma_digit_count_exact(v, n);
    } else {
        lemma_digit_count_exact(v, n + k);
    }
    lemma_padded_split(q, r, n, k);
}

/// Moving the `k` lowest digits of `value` into the low part `low` of `orig`.
pub proof fn lemma_shift_chunk(orig: nat, value: nat, low: nat, m: nat, k: nat)
    requires
        orig == value * pow10(m) + low,
        low < pow10(m),
    ensures
        orig == (value / pow10(k)) * pow10(k + m) + ((value % pow10(k)) * pow10(m) + low),
        (value % pow10(k)) * pow10(m) + low < pow10(k + m),
        padded((value % pow10(k)) * pow10(m) + low, k + m) == padded(value % pow10(k), k) + padded(
            low,
            m,
        ),
        value >= pow10(k) ==> digit_count(value) == digit_count(value / pow10(k)) + k,
{
    lemma_pow10_positive(k);
    lemma_pow10_add(k, m);
    let q = value / pow10(k);
    let r = value % pow10(k);
    let pk = pow10(k);
    let pm = pow10(m);
    assert(value == q * pk + r && r < pk) by (nonlinear_arith)
        requires
            pk >= 1,
            q == value / pk,
            r == value % pk,
    ;
    assert(orig == q * (pk * pm) + (r * pm + low)) by (nonlinear_arith)
        requires
            orig == value * pm + low,
            value == q * pk + r,
    ;
    assert(r * pm + low < pk * pm) by (nonlinear_arith)
        requires
            r < pk,
            low < pm,
    ;
    lemma_padded_split(r, low, k, m);
    if value >= pk {
        assert(q >= 1) by (nonlinear_arith)
            requires
                value >= pk,
                value == q * pk + r,
                r < pk,
        ;
        lemma_decimal_split(q, r, k);
    }
}

/// A value below `10^n` has at most `n` digits; its text is as long as its digit count.
pub proof fn lemma_decimal_len(v: nat, n: nat)
    requires
        n >= 1,
        v < pow10(n),
    ensures
        decimal(v).len() == digit_count(v),
        digit_count(v) <= n,
{
    lemma_padded_len(v, digit_count(v));
    lemma_digit_count_bounds(v);
    let d = digit_count(v);
    if d > n {
        if (d - 1) as nat > n {
            lemma_pow10_increasing(n, (d - 1) as nat);
        }
    }
}

/// Splitting a value below `10^(j + k)` at `10^k`.
pub proof fn lemma_div_mod_pow10(u: nat, j: nat, k: nat)
    requires
        u < pow10(j + k),
    ensures
        u / pow10(k) < pow10(j),
        u % pow10(k) < pow10(k),
        (u / pow10(k)) * pow10(k) + u % pow10(k) == u,
{
    lemma_pow10_add(j, k);
    lemma_pow10_positive(k);
    let pk = pow10(k) as int;
    let pj = pow10(j) as int;
    let q = u as int / pk;
    let r = u as int % pk;
    assert(q * pk + r == u && 0 <= r < pk && q < pj) by (nonlinear_arith)
        requires
            pk > 0,
            q == u as int / pk,
            r == u as int % pk,
            u < pj * pk,
    ;
}

/// The length of the decimal text is the digit count: 1 for zero, otherwise the
/// `n` with `10^(n-1) <= v < 10^n`, that is `floor(log10 v) + 1`.
pub proof fn lemma_decimal_length(v: nat)
    ensures
        decimal(v).len() == digit_count(v),
        v == 0 ==> decimal(v).len() == 1,
        v > 0 ==> pow10((decimal(v).len() - 1) as nat) <= v < pow10(decimal(v).len()),
{
    lemma_padded_len(v, digit_count(v));
    lemma_digit_count_bounds(v);
    if v > 0 && digit_count(v) == 1 {
        assert(pow10(0) == 1);
    }
}

/// The decimal text is made of ASCII digits, and starts with `'0'` only for zero,
/// whose text is the single byte `'0'`.
pub proof fn lemma_decimal_leading(v: nat)
    ensures
        forall|i: int| 0 <= i < decimal(v).len() ==> 48 <= #[trigger] decimal(v)[i] <= 57,
        v > 0 ==> decimal(v)[0] != 48,
        v == 0 ==> decimal(v) == seq![48u8],
    decreases v,
{
    lemma_padded_len(v, digit_count(v));
    lemma_padded_digits(v, digit_count(v));
    if v < 10 {
        reveal_with_fuel(padded, 2);
        assert(decimal(v) =~= seq![ascii_digit(v)]);
    } else {
        lemma_decimal_leading(v / 10);
        lemma_digit_count_bounds(v / 10);
        lemma_padded_len(v / 10, digit_count(v / 10));
        assert(decimal(v) == decimal(v / 10).push(ascii_digit(v % 10)));
    }
}

proof fn lemma_padded_digits(v: nat, k: nat)
    ensures
        forall|i: int| 0 <= i < padded(v, k).len() ==> 48 <= #[trigger] padded(v, k)[i] <= 57,
    decreases k,
{
    lemma_padded_len(v, k);
    if k > 0 {
        lemma_padded_digits(v / 10, (k - 1) as nat);
        lemma_padded_len(v / 10, (k - 1) as nat);
        assert forall|i: int| 0 <= i < padded(v, k).len() implies 48 <= #[trigger] padded(v, k)[i] <= 57 by {
            if i < k - 1 {
                assert(padded(v, k)[i] == padded(v / 10, (k - 1) as nat)[i]);
            }
        }
    }
}

/// The powers of ten that the formatters use, up to `10^39`.
pub proof fn lemma_pow10_values()
    ensures
        pow10(0) == 1,
        pow10(1) == 10,
        pow10(2) == 100,
        pow10(3) == 1000,
        pow10(4) == 10000,
        pow10(5) == 100000,
        pow10(6) == 1000000,
        pow10(7) == 10000000,
        pow10(8) == 100000000,
        pow10(9) == 1000000000,
        pow10(10) == 10000000000,
        pow10(11) == 100000000000,
        pow10(12) == 1000000000000,
        pow10(13) == 10000000000000,
        pow10(14) == 100000000000000,
        pow10(15) == 1000000000000000,
        pow10(16) == 10000000000000000,
        pow10(17) == 100000000000000000,
        pow10(18) == 1000000000000000000,
        pow10(19) == 10000000000000000000,
        pow10(20) == 100000000000000000000,
        pow10(21) == 1000000000000000000000,
        pow10(22) == 10000000000000000000000,
        pow10(23) == 100000000000000000000000,
        pow10(24) == 1000000000000000000000000,
        pow10(25) == 10000000000000000000000000,
        pow10(26) == 100000000000000000000000000,
        pow10(27) == 1000000000000000000000000000,
        pow10(28) == 10000000000000000000000000000,
        pow10(29) == 100000000000000000000000000000,
        pow10(30) == 1000000000000000000000000000000,
        pow10(31) == 10000000000000000000000000000000,
        pow10(32) == 100000000000000000000000000000000,
        pow10(33) == 1000000000000000000000000000000000,
        pow10(34) == 10000000000000000000000000000000000,
        pow10(35) == 100000000000000000000000000000000000,
        pow10(36) == 1000000000000000000000000000000000000,
        pow10(37) == 10000000000000000000000000000000000000,
        pow10(38) == 100000000000000000000000000000000000000,
        pow10(39) == 1000000000000000000000000000000000000000,
{
    assert(pow10(0) == 1);
    assert(pow10(1) == 10);
    assert(pow10(2) == 100);
    assert(pow10(3) == 1000);
    assert(pow10(4) == 10000);
    assert(pow10(5) == 100000);
    assert(pow10(6) == 1000000);
    assert(pow10(7) == 10000000);
    assert(pow10(8) == 100000000);
    assert(pow10(9) == 1000000000);
    assert(pow10(10) == 10000000000);
    assert(pow10(11) == 100000000000);
    assert(pow10(12) == 1000000000000);
    assert(pow10(13) == 10000000000000);
    assert(pow10(14) == 100000000000000);
    assert(pow10(15) == 1000000000000000);
    assert(pow10(16) == 10000000000000000);
    assert(pow10(17) == 100000000000000000);
    assert(pow10(18) == 1000000000000000000);
    assert(pow10(19) == 10000000000000000000);
    assert(pow10(20) == 100000000000000000000);
    assert(pow10(21) == 1000000000000000000000);
    assert(pow10(22) == 10000000000000000000000);
    assert(pow10(23) == 100000000000000000000000);
    assert(pow10(24) == 1000000000000000000000000);
    assert(pow10(25) == 10000000000000000000000000);
    assert(pow10(26) == 100000000000000000000000000);
    assert(pow10(27) == 1000000000000000000000000000);
    assert(pow10(28) == 10000000000000000000000000000);
    assert(pow10(29) == 100000000000000000000000000000);
    assert(pow10(30) == 1000000000000000000000000000000);
    assert(pow10(31) == 10000000000000000000000000000000);
    assert(pow10(32) == 100000000000000000000000000000000);
    assert(pow10(33) == 1000000000000000000000000000000000);
    assert(pow10(34) == 10000000000000000000000000000000000);
    assert(pow10(35) == 100000000000000000000000000000000000);
    assert(pow10(36) == 1000000000000000000000000000000000000);
    assert(pow10(37) == 10000000000000000000000000000000000000);
    assert(pow10(38) == 100000000000000000000000000000000000000);
    assert(pow10(39) == 1000000000000000000000000000000000000000);
}

} // verus!
