//! Decimal rendering of integers, for messages and summaries.
use vstd::prelude::*;

verus! {

/// The decimal digit for `d < 10`.
pub open spec fn digit_char(d: nat) -> char {
    if d == 0 {
        '0'
    } else if d == 1 {
        '1'
    } else if d == 2 {
        '2'
    } else if d == 3 {
        '3'
    } else if d == 4 {
        '4'
    } else if d == 5 {
        '5'
    } else if d == 6 {
        '6'
    } else if d == 7 {
        '7'
    } else if d == 8 {
        '8'
    } else {
        '9'
    }
}

/// Decimal digits of `n`, most significant first, no leading zeros (`"0"` for zero).
pub open spec fn spec_decimal(n: nat) -> Seq<char>
    decreases n,
{
    if n < 10 {
        seq![digit_char(n)]
    } else {
        spec_decimal(n / 10).push(digit_char(n % 10))
    }
}

/// Decimal rendering of a signed integer: a `-` before a negative one.
pub open spec fn spec_decimal_int(n: int) -> Seq<char> {
    if n < 0 {
        seq!['-'] + spec_decimal((-n) as nat)
    } else {
        spec_decimal(n as nat)
    }
}

fn digit_str(d: u64) -> (r: &'static str)
    requires
        d < 10,
    ensures
        r@ == seq![digit_char(d as nat)],
{
    let r = if d == 0 {
        "0"
    } else if d == 1 {
        "1"
    } else if d == 2 {
        "2"
    } else if d == 3 {
        "3"
    } else if d == 4 {
        "4"
    } else if d == 5 {
        "5"
    } else if d == 6 {
        "6"
    } else if d == 7 {
        "7"
    } else if d == 8 {
        "8"
    } else {
        "9"
    };
    proof {
        reveal_strlit("0");
        reveal_strlit("1");
        reveal_strlit("2");
        reveal_strlit("3");
        reveal_strlit("4");
        reveal_strlit("5");
        reveal_strlit("6");
        reveal_strlit("7");
        reveal_strlit("8");
        reveal_strlit("9");
    }
    assert(r@ =~= seq![digit_char(d as nat)]);
    r
}

/// Append the decimal digits of `n` to `out`.
pub fn push_decimal(out: &mut String, n: u128)
    ensures
        final(out)@ == old(out)@ + spec_decimal(n as nat),
    decreases n,
{
    if n < 10 {
        let s = digit_str(n as u64);
        out.append(s);
    } else {
        push_decimal(out, n / 10);
        let s = digit_str((n % 10) as u64);
        out.append(s);
        assert(spec_decimal(n as nat) == spec_decimal((n / 10) as nat).push(digit_char((n % 10) as nat)));
        assert(old(out)@ + spec_decimal((n / 10) as nat) + seq![digit_char((n % 10) as nat)]
            =~= old(out)@ + spec_decimal(n as nat));
    }
}

/// Decimal rendering of `n`.
pub fn decimal(n: u128) -> (r: String)
    ensures
        r@ == spec_decimal(n as nat),
{
    let mut out = String::new();
    push_decimal(&mut out, n);
    assert(out@ =~= spec_decimal(n as nat));
    out
}

/// Decimal rendering of a signed `n`.
pub fn decimal_i128(n: i128) -> (r: String)
    ensures
        r@ == spec_decimal_int(n as int),
{
    if n < 0 {
        let mut out = String::from_str("-");
        proof {
            reveal_strlit("-");
        }
        let m: u128 = if n == i128::MIN {
            (i128::MAX as u128) + 1
        } else {
            (-n) as u128
        };
        push_decimal(&mut out, m);
        out
    } else {
        decimal(n as u128)
    }
}

/// The `w` low decimal digits of `f`, zero-padded, most significant first.
pub open spec fn spec_padded(f: nat, w: nat) -> Seq<char>
    decreases w,
{
    if w == 0 {
        Seq::empty()
    } else {
        spec_padded(f / 10, (w - 1) as nat).push(digit_char(f % 10))
    }
}

/// The `w` low digits of `f` with trailing zeros dropped.
pub open spec fn spec_trimmed(f: nat, w: nat) -> Seq<char>
    decreases w,
{
    if w == 0 {
        Seq::empty()
    } else if f % 10 == 0 {
        spec_trimmed(f / 10, (w - 1) as nat)
    } else {
        spec_padded(f, w)
    }
}

/// A fraction in parts per million the way a decimal number prints: `1` for
/// 1_000_000, `0.05` for 50_000, `1.5` for 1_500_000.
pub open spec fn spec_ppm_text(p: nat) -> Seq<char> {
    if p % 1_000_000 == 0 {
        spec_decimal(p / 1_000_000)
    } else {
        spec_decimal(p / 1_000_000) + seq!['.'] + spec_trimmed(p % 1_000_000, 6)
    }
}

fn push_padded(out: &mut String, f: u64, w: u32)
    ensures
        final(out)@ == old(out)@ + spec_padded(f as nat, w as nat),
    decreases w,
{
    if w > 0 {
        push_padded(out, f / 10, w - 1);
        let s = digit_str(f % 10);
        out.append(s);
        assert(old(out)@ + spec_padded((f / 10) as nat, (w - 1) as nat) + seq![digit_char((f % 10) as nat)]
            =~= old(out)@ + spec_padded(f as nat, w as nat));
    } else {
        assert(old(out)@ + spec_padded(f as nat, w as nat) =~= old(out)@);
    }
}

/// Render a parts-per-million fraction as a decimal number.
pub fn ppm_text(p: u32) -> (r: String)
    ensures
        r@ == spec_ppm_text(p as nat),
{
    let mut out = decimal((p / 1_000_000) as u128);
    let frac = p % 1_000_000;
    if frac != 0 {
        out.append(".");
        proof {
            reveal_strlit(".");
        }
        let mut f: u64 = frac as u64;
        let mut w: u32 = 6;
        while w > 0 && f % 10 == 0
            invariant
                w <= 6,
                spec_trimmed(f as nat, w as nat) == spec_trimmed(frac as nat, 6),
            decreases w,
        {
            f = f / 10;
            w = w - 1;
        }
        push_padded(&mut out, f, w);
        assert(spec_trimmed(f as nat, w as nat) == spec_padded(f as nat, w as nat));
        assert(out@ =~= spec_ppm_text(p as nat));
    }
    out
}

} // verus!
