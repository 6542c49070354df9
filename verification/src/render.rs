//! Text of an output line: decimal numbers, right-aligned in fixed columns.

use vstd::prelude::*;
use vstd::string::*;

verus! {

/// Width of a column's number; a longer number takes the room it needs.
pub const FIELD_WIDTH: usize = 7;

/// The character of the decimal digit `d`.
pub open spec fn digit_char(d: nat) -> char
    recommends
        d < 10,
{
    if d == 0 {
        '0'
    } else if d == 1 {
        '1'
    } else if d == 2 {
        '2'
    } else if d == 3 {
        '3'
    } else if d == 4 {
        '4'
    } else if d == 5 {
        '5'
    } else if d == 6 {
        '6'
    } else if d == 7 {
        '7'
    } else if d == 8 {
        '8'
    } else {
        '9'
    }
}

/// The decimal numeral of `n`, without leading zeros.
pub open spec fn decimal(n: nat) -> Seq<char>
    decreases n,
{
    if n < 10 {
        seq![digit_char(n)]
    } else {
        decimal(n / 10).push(digit_char(n % 10))
    }
}

/// `count` spaces.
pub open spec fn spaces(count: nat) -> Seq<char> {
    Seq::new(count, |i: int| ' ')
}

/// `s` moved to the right edge of a field of `width` characters; `s` itself
/// where it is longer than the field.
pub open spec fn right_aligned(s: Seq<char>, width: nat) -> Seq<char> {
    if s.len() >= width {
        s
    } else {
        spaces((width - s.len()) as nat) + s
    }
}

/// One column of an output line: a space, then `n` right-aligned in
/// `FIELD_WIDTH` characters.
pub open spec fn column(n: nat) -> Seq<char> {
    seq![' '] + right_aligned(decimal(n), FIELD_WIDTH as nat)
}

/// The numeral of `n` has between one and twenty characters for a `u64`.
pub proof fn lemma_decimal_len(n: nat)
    ensures
        decimal(n).len() >= 1,
        n <= u64::MAX ==> decimal(n).len() <= 20,
{
    reveal_with_fuel(decimal, 21);
}

fn digit_text(d: u64) -> (r: &'static str)
    requires
        d < 10,
    ensures
        r@ == seq![digit_char(d as nat)],
{
    proof {
        reveal_strlit("0");
        reveal_strlit("1");
        reveal_strlit("2");
        reveal_strlit("3");
        reveal_strlit("4");
        reveal_strlit("5");
        reveal_strlit("6");
        reveal_strlit("7");
        reveal_strlit("8");
        reveal_strlit("9");
    }
    let r = if d == 0 {
        "0"
    } else if d == 1 {
        "1"
    } else if d == 2 {
        "2"
    } else if d == 3 {
        "3"
    } else if d == 4 {
        "4"
    } else if d == 5 {
        "5"
    } else if d == 6 {
        "6"
    } else if d == 7 {
        "7"
    } else if d == 8 {
        "8"
    } else {
        "9"
    };
    assert(r@ =~= seq![digit_char(d as nat)]);
    r
}

/// Appends `column(n)` to `out`.
pub fn push_column(out: &mut String, n: u64)
    ensures
        final(out)@ == old(out)@ + column(n as nat),
{
    // The digits of `n` below the leading one, least significant first.
    let mut low: Vec<u64> = Vec::new();
    let mut rest: u64 = n;
    while rest >= 10
        invariant
            low.len() <= 20,
            decimal(n as nat).len() == decimal(rest as nat).len() + low.len(),
            forall|i: int| 0 <= i < low.len() ==> low[i] < 10,
            decimal(n as nat) =~= decimal(rest as nat) + Seq::new(
                low.len() as nat,
                |i: int| digit_char(low[low.len() - 1 - i] as nat),
            ),
        decreases rest,
    {
        proof {
            lemma_decimal_len(n as nat);
        }
        low.push(rest % 10);
        rest = rest / 10;
    }
    let ghost digits = decimal(n as nat);
    let len: usize = low.len() + 1;
    proof {
        reveal_strlit(" ");
    }
    out.append(" ");
    let mut pad: usize = 0;
    while pad + len < FIELD_WIDTH
        invariant
            len == digits.len(),
            pad + len <= FIELD_WIDTH || pad == 0,
            out@ == old(out)@ + seq![' '] + spaces(pad as nat),
        decreases FIELD_WIDTH - pad,
    {
        proof {
            reveal_strlit(" ");
        }
        out.append(" ");
        pad = pad + 1;
        assert(out@ =~= old(out)@ + seq![' '] + spaces(pad as nat));
    }
    assert(out@ + digits =~= old(out)@ + column(n as nat));
    out.append(digit_text(rest));
    let mut k: usize = low.len();
    while k > 0
        invariant
            k <= low.len(),
            rest < 10,
            len == low.len() + 1,
            digits.len() == len,
            forall|i: int| 0 <= i < low.len() ==> low[i] < 10,
            digits =~= seq![digit_char(rest as nat)] + Seq::new(
                low.len() as nat,
                |i: int| digit_char(low[low.len() - 1 - i] as nat),
            ),
            out@ + digits.skip(len - k) =~= old(out)@ + column(n as nat),
        decreases k,
    {
        k = k - 1;
        let ghost before = out@;
        out.append(digit_text(low[k]));
        assert(digits.skip(len - (k + 1)) =~= seq![digits[len - (k + 1)]] + digits.skip(len - k));
        assert(out@ + digits.skip(len - k) =~= before + digits.skip(len - (k + 1)));
    }
    assert(digits.skip(len as int) =~= Seq::<char>::empty());
    assert(out@ =~= out@ + digits.skip(len as int));
}

} // verus!
