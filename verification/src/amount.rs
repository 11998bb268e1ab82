use vstd::prelude::*;

verus! {

/// Ten to the `n`.
pub open spec fn pow10(n: nat) -> int
    decreases n,
{
    if n == 0 {
        1
    } else {
        10 * pow10((n - 1) as nat)
    }
}

proof fn lemma_pow10_pos(n: nat)
    ensures
        pow10(n) >= 1,
    decreases n,
{
    if n > 0 {
        lemma_pow10_pos((n - 1) as nat);
    }
}

proof fn lemma_pow10_le(a: nat, b: nat)
    requires
        a <= b,
    ensures
        pow10(a) <= pow10(b),
    decreases b,
{
    if a < b {
        lemma_pow10_le(a, (b - 1) as nat);
        lemma_pow10_pos((b - 1) as nat);
    }
}

fn pow10_u128(n: u32) -> (r: u128)
    requires
        n <= 24,
    ensures
        r == pow10(n as nat),
        r >= 1,
{
    proof {
        reveal_with_fuel(pow10, 25);
        assert(pow10(24nat) == 1000000000000000000000000);
    }
    let mut r: u128 = 1;
    let mut i: u32 = 0;
    while i < n
        invariant
            i <= n,
            n <= 24,
            r == pow10(i as nat),
            pow10(24nat) == 1000000000000000000000000,
        decreases n - i,
    {
        proof {
            lemma_pow10_le((i + 1) as nat, 24nat);
        }
        r = r * 10;
        i = i + 1;
    }
    r
}

/// An amount of `m / 10^s` currency units rounded half-to-even to four
/// fractional digits, as a count of ten-thousandths. Intended for `m >= 0`.
pub open spec fn round_units(m: int, s: nat) -> int {
    if s <= 4 {
        m * pow10((4 - s) as nat)
    } else {
        let d = pow10((s - 4) as nat);
        let q = m / d;
        let r = m % d;
        if 2 * r < d {
            q
        } else if 2 * r > d {
            q + 1
        } else if q % 2 == 0 {
            q
        } else {
            q + 1
        }
    }
}

/// Rounds a non-negative decimal (mantissa `m`, scale `s`) half-to-even to
/// four fractional digits. `None` exactly when the rounded amount does not
/// fit the fixed-point range.
pub fn round_to_units(m: i128, s: u32) -> (r: Option<u64>)
    requires
        0 <= m < 0x1000000000000000000000000,
        s <= 28,
    ensures
        match r {
            Some(u) => u as int == round_units(m as int, s as nat),
            None => round_units(m as int, s as nat) > u64::MAX,
        },
{
    let mu = m as u128;
    if s <= 4 {
        let p = pow10_u128(4 - s);
        proof {
            reveal_with_fuel(pow10, 5);
            assert(pow10(4nat) == 10000);
            lemma_pow10_le((4 - s) as nat, 4nat);
            assert(mu * p <= mu * 10000) by (nonlinear_arith)
                requires
                    p <= 10000,
                    mu >= 0,
            ;
            assert(mu * 10000 < 0x1000000000000000000000000u128 * 10000) by (nonlinear_arith)
                requires
                    mu < 0x1000000000000000000000000,
            ;
        }
        let v = mu * p;
        if v <= u64::MAX as u128 {
            Some(v as u64)
        } else {
            None
        }
    } else {
        let d = pow10_u128(s - 4);
        let q = mu / d;
        let r2 = mu % d;
        proof {
            reveal_with_fuel(pow10, 25);
            assert(d <= pow10(24nat)) by {
                lemma_pow10_le((s - 4) as nat, 24nat);
            }
            assert(q <= mu) by (nonlinear_arith)
                requires
                    d >= 1,
                    mu >= 0,
                    q == mu / d,
            ;
        }
        let rounded = if 2 * r2 < d {
            q
        } else if 2 * r2 > d {
            q + 1
        } else if q % 2 == 0 {
            q
        } else {
            q + 1
        };
        if rounded <= u64::MAX as u128 {
            Some(rounded as u64)
        } else {
            None
        }
    }
}

/// What `rust_decimal` reads out of a byte string: the mantissa and scale of
/// the parsed decimal, `None` where the text does not parse. The result is a
/// function of the bytes alone.
pub uninterp spec fn decimal_of(s: Seq<u8>) -> Option<(int, nat)>;

/// Relies on rust_decimal's `Decimal::from_str` to parse decimal text
/// (`str::from_utf8` converts the argument; `Decimal::mantissa` and
/// `Decimal::scale` read the result out). A `Decimal` is a 96-bit mantissa
/// with a scale of at most 28, so the read-out is bounded accordingly.
#[verifier::external_body]
pub(crate) fn parse_decimal(s: &[u8]) -> (r: Option<(i128, u32)>)
    ensures
        match (r, decimal_of(s@)) {
            (Some(q), Some(p)) => {
                &&& q.0 as int == p.0
                &&& q.1 as nat == p.1
                &&& -0x1000000000000000000000000 < p.0 < 0x1000000000000000000000000
                &&& p.1 <= 28
            },
            (None, None) => true,
            _ => false,
        },
{
    match core::str::from_utf8(s) {
        Ok(t) => match <rust_decimal::Decimal as core::str::FromStr>::from_str(t) {
            Ok(d) => Some((d.mantissa(), d.scale())),
            Err(_) => None,
        },
        Err(_) => None,
    }
}

// ---------------------------------------------------------------------------
// Rendering an amount back to decimal text.
// ---------------------------------------------------------------------------

/// The decimal digits of `n`, most significant first; empty for `n <= 0`.
pub open spec fn spec_digits(n: int) -> Seq<u8>
    decreases n,
{
    if n <= 0 {
        Seq::empty()
    } else {
        spec_digits(n / 10).push((48 + n % 10) as u8)
    }
}

/// The four fractional digits of `f`, which lies in `0 .. 10000`.
pub open spec fn spec_frac_digits(f: int) -> Seq<u8> {
    seq![
        (48 + (f / 1000) % 10) as u8,
        (48 + (f / 100) % 10) as u8,
        (48 + (f / 10) % 10) as u8,
        (48 + f % 10) as u8,
    ]
}

/// Drops trailing zero digits.
pub open spec fn trim_zeros(s: Seq<u8>) -> Seq<u8>
    decreases s.len(),
{
    if s.len() > 0 && s.last() == 48 {
        trim_zeros(s.drop_last())
    } else {
        s
    }
}

/// Decimal text of a non-negative amount of ten-thousandths: the whole
/// part, then a point and the fractional digits with trailing zeros
/// dropped; a whole amount is printed without a point.
pub open spec fn spec_render_nonneg(u: int) -> Seq<u8> {
    let whole = if u / 10000 == 0 {
        seq![48u8]
    } else {
        spec_digits(u / 10000)
    };
    let frac = trim_zeros(spec_frac_digits(u % 10000));
    if frac.len() == 0 {
        whole
    } else {
        whole + seq![46u8] + frac
    }
}

/// Decimal text of an amount of ten-thousandths, with a leading minus sign
/// when it is negative.
pub open spec fn spec_render(v: int) -> Seq<u8> {
    if v < 0 {
        seq![45u8] + spec_render_nonneg(-v)
    } else {
        spec_render_nonneg(v)
    }
}

fn digits_vec(n: u128) -> (r: Vec<u8>)
    ensures
        r@ == spec_digits(n as int),
    decreases n,
{
    let mut r: Vec<u8> = if n >= 10 {
        digits_vec(n / 10)
    } else {
        Vec::new()
    };
    if n > 0 {
        r.push(48 + (n % 10) as u8);
        proof {
            assert(spec_digits(n as int) == spec_digits(n as int / 10).push(
                (48 + n as int % 10) as u8,
            ));
            if n < 10 {
                assert(spec_digits(n as int / 10) =~= Seq::<u8>::empty());
            }
            assert(r@ =~= spec_digits(n as int));
        }
    }
    r
}

/// Renders a balance, in ten-thousandths of a unit, as decimal text with at
/// most four fractional digits.
pub fn render_amount(v: i128) -> (r: Vec<u8>)
    ensures
        r@ == spec_render(v as int),
{
    let mag: u128 = if v >= 0 {
        v as u128
    } else {
        ((-1 - v) as u128) + 1
    };
    proof {
        assert(mag as int == if v >= 0 {
            v as int
        } else {
            -(v as int)
        });
    }
    let whole_n = mag / 10000;
    let frac_n = mag % 10000;
    let mut out: Vec<u8> = Vec::new();
    if v < 0 {
        out.push(45);
    }
    if whole_n == 0 {
        out.push(48);
    } else {
        let mut d = digits_vec(whole_n);
        out.append(&mut d);
    }
    let mut f: Vec<u8> = Vec::new();
    f.push(48 + (frac_n / 1000 % 10) as u8);
    f.push(48 + (frac_n / 100 % 10) as u8);
    f.push(48 + (frac_n / 10 % 10) as u8);
    f.push(48 + (frac_n % 10) as u8);
    proof {
        assert(f@ =~= spec_frac_digits(mag as int % 10000));
    }
    let ghost f_orig = f@;
    while f.len() > 0 && f[f.len() - 1] == 48
        invariant
            trim_zeros(f@) == trim_zeros(f_orig),
        decreases f@.len(),
    {
        let _ = f.pop();
    }
    proof {
        assert(trim_zeros(f@) == f@);
    }
    if f.len() > 0 {
        out.push(46);
        out.append(&mut f);
    }
    proof {
        assert(out@ =~= spec_render(v as int));
    }
    out
}

} // verus!
