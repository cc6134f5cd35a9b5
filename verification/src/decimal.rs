//! Decimal text of unsigned integers.

use vstd::prelude::*;
use vstd::string::{StrSliceExecFns, StringExecFns};

verus! {

/// The character of a decimal digit.
pub open spec fn digit_char(d: nat) -> char {
    seq!['0', '1', '2', '3', '4', '5', '6', '7', '8', '9'][d as int]
}

/// The decimal digits of `n`, most significant first, without leading zeros.
pub open spec fn decimal(n: nat) -> Seq<char>
    decreases n,
{
    if n < 10 {
        seq![digit_char(n)]
    } else {
        decimal(n / 10) + seq![digit_char(n % 10)]
    }
}

/// The decimal digits of `n`, with zeros in front up to `width` characters.
pub open spec fn zero_padded(n: nat, width: nat) -> Seq<char> {
    let t = decimal(n);
    if t.len() < width {
        Seq::new((width - t.len()) as nat, |i: int| '0') + t
    } else {
        t
    }
}

fn digit_str(d: u64) -> (r: &'static str)
    requires
        d < 10,
    ensures
        r@ == seq![digit_char(d as nat)],
{
    proof {
        reveal_strlit("0");
        reveal_strlit("1");
        reveal_strlit("2");
        reveal_strlit("3");
        reveal_strlit("4");
        reveal_strlit("5");
        reveal_strlit("6");
        reveal_strlit("7");
        reveal_strlit("8");
        reveal_strlit("9");
    }
    let r = if d == 0 {
        "0"
    } else if d == 1 {
        "1"
    } else if d == 2 {
        "2"
    } else if d == 3 {
        "3"
    } else if d == 4 {
        "4"
    } else if d == 5 {
        "5"
    } else if d == 6 {
        "6"
    } else if d == 7 {
        "7"
    } else if d == 8 {
        "8"
    } else {
        "9"
    };
    assert(r@ =~= seq![digit_char(d as nat)]);
    r
}

/// Appends the decimal digits of `n`.
pub fn append_decimal(s: &mut String, n: u64)
    ensures
        final(s)@ == old(s)@ + decimal(n as nat),
    decreases n,
{
    if n >= 10 {
        append_decimal(s, n / 10);
    }
    let d = digit_str(n % 10);
    s.append(d);
    assert(s@ =~= old(s)@ + decimal(n as nat));
}

pub(crate) proof fn lemma_decimal_len(n: nat)
    ensures
        decimal(n).len() >= 1,
    decreases n,
{
    if n >= 10 {
        lemma_decimal_len(n / 10);
    }
}

/// Appends the decimal digits of `n` with zeros in front up to `width`
/// characters.
pub fn append_zero_padded(s: &mut String, n: u64, width: usize)
    ensures
        final(s)@ == old(s)@ + zero_padded(n as nat, width as nat),
{
    let mut digits = String::new();
    append_decimal(&mut digits, n);
    assert(digits@ =~= decimal(n as nat));
    let len = digits.as_str().unicode_len();
    let mut k: usize = len;
    let ghost start = s@;
    while k < width
        invariant
            len <= k,
            k >= width ==> k == len || k == width,
            s@ == start + Seq::new((k - len) as nat, |i: int| '0'),
        decreases width - k,
    {
        proof { reveal_strlit("0"); }
        s.append("0");
        assert(s@ =~= start + Seq::new((k + 1 - len) as nat, |i: int| '0'));
        k = k + 1;
    }
    s.append(digits.as_str());
    proof {
        lemma_decimal_len(n as nat);
        if len < width {
            assert(s@ =~= start + zero_padded(n as nat, width as nat));
        } else {
            assert(k == len);
            assert(s@ =~= start + zero_padded(n as nat, width as nat));
        }
    }
}

/// The number a text of decimal digits stands for.
pub open spec fn decimal_value(t: Seq<char>) -> int
    decreases t.len(),
{
    if t.len() == 0 {
        0
    } else {
        decimal_value(t.drop_last()) * 10 + (t.last() as int - '0' as int)
    }
}

/// The decimal text of `n` is made of digits, starts with a digit other
/// than zero unless `n` is zero, and stands for `n`.
pub proof fn lemma_decimal_reads_back(n: nat)
    ensures
        forall|k: int| 0 <= k < decimal(n).len() ==> '0' <= #[trigger] decimal(n)[k] <= '9',
        n > 0 ==> decimal(n)[0] != '0',
        decimal_value(decimal(n)) == n,
    decreases n,
{
    assert(digit_char(0) == '0' && digit_char(1) == '1' && digit_char(2) == '2' && digit_char(3) == '3'
        && digit_char(4) == '4' && digit_char(5) == '5' && digit_char(6) == '6' && digit_char(7) == '7'
        && digit_char(8) == '8' && digit_char(9) == '9');
    let d = n % 10;
    assert(digit_char(d) as int - '0' as int == d as int);
    if n < 10 {
        assert(decimal(n).drop_last() =~= Seq::<char>::empty());
        assert(decimal_value(Seq::<char>::empty()) == 0);
        assert(decimal(n).last() == digit_char(n));
    }
    if n >= 10 {
        lemma_decimal_reads_back(n / 10);
        let t = decimal(n);
        assert(t.drop_last() =~= decimal(n / 10));
        assert forall|k: int| 0 <= k < t.len() implies '0' <= #[trigger] t[k] <= '9' by {
            if k < t.len() - 1 {
                assert(t[k] == decimal(n / 10)[k]);
            }
        }
        assert(t[0] == decimal(n / 10)[0]);
        assert(t.last() == digit_char(d));
        assert(decimal_value(t) == decimal_value(decimal(n / 10)) * 10 + d);
        assert(n == (n / 10) * 10 + d);
    }
}

proof fn lemma_zeros_value(z: Seq<char>)
    requires
        forall|k: int| 0 <= k < z.len() ==> z[k] == '0',
    ensures
        decimal_value(z) == 0,
    decreases z.len(),
{
    if z.len() > 0 {
        lemma_zeros_value(z.drop_last());
    }
}

proof fn lemma_zero_prefix_value(z: Seq<char>, t: Seq<char>)
    requires
        forall|k: int| 0 <= k < z.len() ==> z[k] == '0',
    ensures
        decimal_value(z + t) == decimal_value(t),
    decreases t.len(),
{
    if t.len() == 0 {
        assert(z + t =~= z);
        lemma_zeros_value(z);
    } else {
        lemma_zero_prefix_value(z, t.drop_last());
        assert((z + t).drop_last() =~= z + t.drop_last());
        assert((z + t).last() == t.last());
    }
}

/// Ten to the power `k`.
pub open spec fn ten_pow(k: nat) -> nat
    decreases k,
{
    if k == 0 {
        1
    } else {
        10 * ten_pow((k - 1) as nat)
    }
}

proof fn lemma_decimal_len_bound(n: nat, k: nat)
    requires
        1 <= k,
        n < ten_pow(k),
    ensures
        decimal(n).len() <= k,
    decreases k,
{
    if n >= 10 {
        if k == 1 {
            assert(ten_pow(1) == 10 * ten_pow(0));
        }
        assert(n / 10 < ten_pow((k - 1) as nat));
        lemma_decimal_len_bound(n / 10, (k - 1) as nat);
    }
}

/// Zero-padded decimal text of a number below `10^6` is six digits that
/// stand for the number.
pub proof fn lemma_six_digits(n: nat)
    requires
        n < 1_000_000,
    ensures
        zero_padded(n, 6).len() == 6,
        forall|k: int| 0 <= k < 6 ==> '0' <= #[trigger] zero_padded(n, 6)[k] <= '9',
        decimal_value(zero_padded(n, 6)) == n,
{
    reveal_with_fuel(ten_pow, 7);
    assert(ten_pow(6) == 1_000_000);
    lemma_decimal_len_bound(n, 6);
    lemma_decimal_reads_back(n);
    let t = decimal(n);
    let z = Seq::new((6 - t.len()) as nat, |i: int| '0');
    if t.len() < 6 {
        lemma_zero_prefix_value(z, t);
        assert forall|k: int| 0 <= k < 6 implies '0' <= #[trigger] zero_padded(n, 6)[k] <= '9' by {
            if k >= z.len() {
                assert(zero_padded(n, 6)[k] == t[k - z.len()]);
            }
        }
    }
}

} // verus!
