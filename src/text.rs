//! Decimal, fixed-point and hexadecimal text for the report.
use vstd::prelude::*;
use vstd::arithmetic::div_mod::{lemma_fundamental_div_mod, lemma_fundamental_div_mod_converse};

verus! {

/// The character of a decimal digit.
pub open spec fn digit_char(d: nat) -> char {
    if d == 0 {
        '0'
    } else if d == 1 {
        '1'
    } else if d == 2 {
        '2'
    } else if d == 3 {
        '3'
    } else if d == 4 {
        '4'
    } else if d == 5 {
        '5'
    } else if d == 6 {
        '6'
    } else if d == 7 {
        '7'
    } else if d == 8 {
        '8'
    } else {
        '9'
    }
}

/// The decimal digits of `n`, most significant first, without leading zeros.
pub open spec fn decimal(n: nat) -> Seq<char>
    decreases n,
{
    if n < 10 {
        seq![digit_char(n)]
    } else {
        decimal(n / 10).push(digit_char(n % 10))
    }
}

/// A one-character string holding the digit `d`.
fn digit_str(d: u128) -> (r: &'static str)
    requires
        d < 10,
    ensures
        r@ == seq![digit_char(d as nat)],
{
    proof {
        reveal_strlit("0");
        reveal_strlit("1");
        reveal_strlit("2");
        reveal_strlit("3");
        reveal_strlit("4");
        reveal_strlit("5");
        reveal_strlit("6");
        reveal_strlit("7");
        reveal_strlit("8");
        reveal_strlit("9");
    }
    if d == 0 {
        "0"
    } else if d == 1 {
        "1"
    } else if d == 2 {
        "2"
    } else if d == 3 {
        "3"
    } else if d == 4 {
        "4"
    } else if d == 5 {
        "5"
    } else if d == 6 {
        "6"
    } else if d == 7 {
        "7"
    } else if d == 8 {
        "8"
    } else {
        "9"
    }
}

/// Writes `n` in decimal.
pub fn decimal_text(n: u128) -> (r: String)
    ensures
        r@ == decimal(n as nat),
    decreases n,
{
    if n < 10 {
        String::from_str(digit_str(n))
    } else {
        let mut s = decimal_text(n / 10);
        s.append(digit_str(n % 10));
        s
    }
}

/// `num / den` in hundredths, rounded to the nearest hundredth, ties to even.
/// The exact quotient is rounded, not a binary floating-point approximation
/// of it: where the quotient lies exactly halfway (fee 203, vsize 200 is
/// 1.015), this gives 1.02, while printing an `f64` quotient with two
/// decimals gives 1.01 because the nearest `f64` lies just below the half.
pub open spec fn hundredths(num: nat, den: nat) -> nat {
    let q = (num * 100) / den;
    let r = (num * 100) % den;
    if 2 * r > den || (2 * r == den && q % 2 == 1) {
        q + 1
    } else {
        q
    }
}

/// A count of hundredths written with two decimals (`1234` is `12.34`).
pub open spec fn fixed2(h: nat) -> Seq<char> {
    decimal(h / 100) + seq!['.', digit_char((h % 100) / 10), digit_char(h % 10)]
}

/// `100 * r / d` and its remainder, for `r < d`, without an intermediate
/// product that could overflow.
fn times_hundred_div(r: u128, d: u128) -> (res: (u128, u128))
    requires
        r < d,
    ensures
        res.0 * d + res.1 == 100 * r,
        res.1 < d,
        res.0 <= 100,
{
    let mut k: u128 = 0;
    let mut cnt: u128 = 0;
    let mut acc: u128 = 0;
    while k < 100
        invariant
            r < d,
            k <= 100,
            cnt <= k,
            acc < d,
            cnt * d + acc == k * r,
        decreases 100 - k,
    {
        if acc >= d - r {
            acc = acc - (d - r);
            cnt = cnt + 1;
            assert(cnt * d == (cnt - 1) * d + d) by (nonlinear_arith);
        } else {
            acc = acc + r;
        }
        assert((k + 1) * r == k * r + r) by (nonlinear_arith);
        k = k + 1;
    }
    (cnt, acc)
}

/// `hundredths(num, den)`, where the rate itself is below `2^64`.
fn rate_hundredths(num: u128, den: u128) -> (h: u128)
    requires
        den > 0,
        num / den < 0x1_0000_0000_0000_0000,
    ensures
        h == hundredths(num as nat, den as nat),
{
    let q0 = num / den;
    let r0 = num % den;
    let (t, rem) = times_hundred_div(r0, den);
    let q = q0 * 100 + t;
    proof {
        lemma_fundamental_div_mod(num as int, den as int);
        assert(num == q0 * den + r0) by (nonlinear_arith)
            requires
                num == den * (num / den) + num % den,
                q0 == num / den,
                r0 == num % den,
        ;
        assert(num * 100 == q * den + rem) by (nonlinear_arith)
            requires
                num == q0 * den + r0,
                t * den + rem == 100 * r0,
                q == q0 * 100 + t,
        ;
        lemma_fundamental_div_mod_converse(num * 100, den as int, q as int, rem as int);
    }
    if rem > den - rem || (rem == den - rem && q % 2 == 1) {
        q + 1
    } else {
        q
    }
}

/// Writes a count of hundredths with two decimals.
pub fn fixed2_text(h: u128) -> (r: String)
    ensures
        r@ == fixed2(h as nat),
{
    let mut s = decimal_text(h / 100);
    proof {
        reveal_strlit(".");
    }
    s.append(".");
    s.append(digit_str((h % 100) / 10));
    s.append(digit_str(h % 10));
    s
}


/// How a floating-point division prints a result that is not a number.
pub open spec fn nan_text() -> Seq<char> {
    seq!['N', 'a', 'N']
}

/// How a floating-point division prints positive infinity.
pub open spec fn inf_text() -> Seq<char> {
    seq!['i', 'n', 'f']
}

/// A feerate `fee / vsize` in sat/vByte with two decimals. A zero size reads
/// as a floating-point division by zero prints.
pub open spec fn feerate_text(fee: nat, vsize: nat) -> Seq<char> {
    if vsize == 0 {
        if fee == 0 {
            nan_text()
        } else {
            inf_text()
        }
    } else {
        fixed2(hundredths(fee, vsize))
    }
}

/// The difference of two feerates, `rf / rv - df / dv`, with two decimals and
/// a leading `-` when it is negative. Zero sizes read as floating-point
/// arithmetic on the two quotients prints.
pub open spec fn feerate_delta_text(rf: nat, rv: nat, df: nat, dv: nat) -> Seq<char> {
    if rv == 0 && (rf == 0 || dv == 0) {
        nan_text()
    } else if dv == 0 && df == 0 {
        nan_text()
    } else if rv == 0 {
        inf_text()
    } else if dv == 0 {
        seq!['-'] + inf_text()
    } else {
        let n = rf * dv - df * rv;
        let d = rv * dv;
        if n < 0 {
            seq!['-'] + fixed2(hundredths((-n) as nat, d))
        } else {
            fixed2(hundredths(n as nat, d))
        }
    }
}

fn nan_string() -> (r: String)
    ensures
        r@ == nan_text(),
{
    proof {
        reveal_strlit("NaN");
    }
    String::from_str("NaN")
}

fn inf_string() -> (r: String)
    ensures
        r@ == inf_text(),
{
    proof {
        reveal_strlit("inf");
    }
    String::from_str("inf")
}

/// Writes the feerate `fee / vsize` with two decimals.
pub fn feerate_string(fee: u64, vsize: u64) -> (r: String)
    ensures
        r@ == feerate_text(fee as nat, vsize as nat),
{
    if vsize == 0 {
        if fee == 0 {
            nan_string()
        } else {
            inf_string()
        }
    } else {
        proof {
            assert(fee <= fee * vsize) by (nonlinear_arith)
                requires
                    vsize >= 1,
            ;
            lemma_quotient_below(fee as nat, vsize as nat, fee as nat);
        }
        fixed2_text(rate_hundredths(fee as u128, vsize as u128))
    }
}

/// If `n <= m * d` with `m < 2^64` and `d > 0`, then `n / d < 2^64`.
proof fn lemma_quotient_below(n: nat, d: nat, m: nat)
    requires
        d > 0,
        m < 0x1_0000_0000_0000_0000,
        n <= m * d,
    ensures
        n / d < 0x1_0000_0000_0000_0000,
{
    lemma_fundamental_div_mod(n as int, d as int);
    if n / d >= 0x1_0000_0000_0000_0000 {
        assert(d * (n / d) >= d * 0x1_0000_0000_0000_0000) by (nonlinear_arith)
            requires
                n / d >= 0x1_0000_0000_0000_0000,
                d > 0,
        ;
        assert(m * d < d * 0x1_0000_0000_0000_0000) by (nonlinear_arith)
            requires
                m < 0x1_0000_0000_0000_0000,
                d > 0,
        ;
    }
}

proof fn lemma_u64_product_fits(x: u64, y: u64)
    ensures
        x * y <= u128::MAX,
{
    assert(x * y <= 0xffff_ffff_ffff_ffff * 0xffff_ffff_ffff_ffff) by (nonlinear_arith)
        requires
            x <= 0xffff_ffff_ffff_ffff,
            y <= 0xffff_ffff_ffff_ffff,
    ;
}

/// Writes the feerate difference `rf / rv - df / dv` with two decimals.
pub fn feerate_delta_string(rf: u64, rv: u64, df: u64, dv: u64) -> (r: String)
    ensures
        r@ == feerate_delta_text(rf as nat, rv as nat, df as nat, dv as nat),
{
    if rv == 0 && (rf == 0 || dv == 0) {
        nan_string()
    } else if dv == 0 && df == 0 {
        nan_string()
    } else if rv == 0 {
        inf_string()
    } else if dv == 0 {
        proof {
            reveal_strlit("-");
        }
        let mut s = String::from_str("-");
        let t = inf_string();
        s.append(t.as_str());
        s
    } else {
        proof {
            lemma_u64_product_fits(rf, dv);
            lemma_u64_product_fits(df, rv);
            lemma_u64_product_fits(rv, dv);
        }
        let a = rf as u128 * dv as u128;
        let b = df as u128 * rv as u128;
        let d = rv as u128 * dv as u128;
        let ghost m: nat = if rf >= df { rf as nat } else { df as nat };
        proof {
            assert(a <= m * d && b <= m * d && d > 0) by (nonlinear_arith)
                requires
                    a == rf * dv,
                    b == df * rv,
                    d == rv * dv,
                    rv >= 1,
                    dv >= 1,
                    m >= rf,
                    m >= df,
            ;
        }
        if a >= b {
            proof {
                lemma_quotient_below((a - b) as nat, d as nat, m);
            }
            fixed2_text(rate_hundredths(a - b, d))
        } else {
            proof {
                lemma_quotient_below((b - a) as nat, d as nat, m);
                reveal_strlit("-");
            }
            let mut s = String::from_str("-");
            let t = fixed2_text(rate_hundredths(b - a, d));
            s.append(t.as_str());
            s
        }
    }
}

/// The lowercase hexadecimal digit for `n < 16`.
pub open spec fn hex_digit(n: nat) -> char {
    if n < 10 {
        digit_char(n)
    } else if n == 10 {
        'a'
    } else if n == 11 {
        'b'
    } else if n == 12 {
        'c'
    } else if n == 13 {
        'd'
    } else if n == 14 {
        'e'
    } else {
        'f'
    }
}

/// Two lowercase hexadecimal digits for each byte, high nibble first.
pub open spec fn hex_of(b: Seq<u8>) -> Seq<char>
    decreases b.len(),
{
    if b.len() == 0 {
        Seq::empty()
    } else {
        let last = b.last();
        hex_of(b.drop_last()) + seq![hex_digit((last / 16) as nat), hex_digit((last % 16) as nat)]
    }
}

/// Relies on `hex::encode`: two lowercase hexadecimal digits per byte, in order.
#[verifier::external_body]
pub(crate) fn hex_encode(b: &[u8]) -> (r: String)
    ensures
        r@ == hex_of(b@),
{
    hex::encode(b)
}

} // verus!
