//! Decimal rendering and the small pieces the report text is built from.
use vstd::prelude::*;

verus! {

/// The character for one decimal digit.
pub open spec fn digit_char(d: int) -> char {
    if d == 0 {
        '0'
    } else if d == 1 {
        '1'
    } else if d == 2 {
        '2'
    } else if d == 3 {
        '3'
    } else if d == 4 {
        '4'
    } else if d == 5 {
        '5'
    } else if d == 6 {
        '6'
    } else if d == 7 {
        '7'
    } else if d == 8 {
        '8'
    } else {
        '9'
    }
}

/// Decimal text of a non-negative number, no padding.
pub open spec fn dec_str(n: int) -> Seq<char>
    recommends
        n >= 0,
    decreases n,
{
    if n < 10 {
        seq![digit_char(n)]
    } else {
        dec_str(n / 10) + seq![digit_char(n % 10)]
    }
}

/// Decimal text of a signed number: a `-` before the magnitude.
pub open spec fn dec_str_i64(n: int) -> Seq<char> {
    if n < 0 {
        seq!['-'] + dec_str(-n)
    } else {
        dec_str(n)
    }
}

/// Two-digit zero-padded decimal text.
pub open spec fn two_dec(n: int) -> Seq<char>
    recommends
        0 <= n < 100,
{
    seq![digit_char(n / 10), digit_char(n % 10)]
}

/// `n` spaces.
pub open spec fn spaces(n: int) -> Seq<char>
    decreases n,
{
    if n <= 0 {
        Seq::<char>::empty()
    } else {
        spaces(n - 1) + seq![' ']
    }
}

/// The segments joined with dots.
pub open spec fn join_dots(segs: Seq<Seq<char>>) -> Seq<char>
    decreases segs.len(),
{
    if segs.len() == 0 {
        Seq::<char>::empty()
    } else if segs.len() == 1 {
        segs[0]
    } else {
        join_dots(segs.drop_last()) + seq!['.'] + segs.last()
    }
}

/// The one-character string for a digit.
fn digit_str(d: u64) -> (s: &'static str)
    requires
        d < 10,
    ensures
        s@ == seq![digit_char(d as int)],
{
    proof {
        reveal_strlit("0");
        reveal_strlit("1");
        reveal_strlit("2");
        reveal_strlit("3");
        reveal_strlit("4");
        reveal_strlit("5");
        reveal_strlit("6");
        reveal_strlit("7");
        reveal_strlit("8");
        reveal_strlit("9");
    }
    let s = if d == 0 {
        "0"
    } else if d == 1 {
        "1"
    } else if d == 2 {
        "2"
    } else if d == 3 {
        "3"
    } else if d == 4 {
        "4"
    } else if d == 5 {
        "5"
    } else if d == 6 {
        "6"
    } else if d == 7 {
        "7"
    } else if d == 8 {
        "8"
    } else {
        "9"
    };
    proof {
        assert(s@ =~= seq![digit_char(d as int)]);
    }
    s
}

/// Append the decimal text of `n`.
pub fn push_u64_dec(out: &mut String, n: u64)
    ensures
        final (out)@ == old(out)@ + dec_str(n as int),
    decreases n,
{
    if n >= 10 {
        push_u64_dec(out, n / 10);
        let ghost mid = out@;
        out.append(digit_str(n % 10));
        proof {
            assert(out@ =~= old(out)@ + dec_str(n as int));
        }
    } else {
        out.append(digit_str(n));
    }
}

/// Append the decimal text of `n`, `-` first when negative.
pub fn push_i64_dec(out: &mut String, n: i64)
    ensures
        final (out)@ == old(out)@ + dec_str_i64(n as int),
{
    if n >= 0 {
        push_u64_dec(out, n as u64);
    } else {
        proof {
            reveal_strlit("-");
        }
        out.append("-");
        let m: u64 = if n == i64::MIN {
            9223372036854775808
        } else {
            (-n) as u64
        };
        push_u64_dec(out, m);
        proof {
            assert("-"@ =~= seq!['-']);
            assert(out@ =~= old(out)@ + dec_str_i64(n as int));
        }
    }
}

/// Append exactly two digits.
pub fn push_two_dec(out: &mut String, n: u64)
    requires
        n < 100,
    ensures
        final (out)@ == old(out)@ + two_dec(n as int),
{
    out.append(digit_str(n / 10));
    out.append(digit_str(n % 10));
    proof {
        assert(out@ =~= old(out)@ + two_dec(n as int));
    }
}

/// Append `n` spaces.
pub fn push_spaces(out: &mut String, n: usize)
    ensures
        final (out)@ == old(out)@ + spaces(n as int),
{
    proof {
        reveal_strlit(" ");
    }
    let mut i: usize = 0;
    proof {
        assert(out@ =~= old(out)@ + spaces(0));
    }
    while i < n
        invariant
            i <= n,
            out@ == old(out)@ + spaces(i as int),
        decreases n - i,
    {
        out.append(" ");
        proof {
            reveal_strlit(" ");
            assert(" "@ =~= seq![' ']);
            assert(spaces(i as int + 1) == spaces(i as int) + seq![' ']);
            assert(old(out)@ + spaces(i as int) + seq![' '] =~= old(out)@ + (spaces(i as int)
                + seq![' ']));
            assert(out@ == old(out)@ + spaces(i as int + 1));
        }
        i = i + 1;
    }
    proof {
        assert(out@ =~= old(out)@ + spaces(n as int));
    }
}

} // verus!
