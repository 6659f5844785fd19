//! The textual form of numbers and of lists: decimal digits, and items
//! separated by a comma and a space between square brackets.
use vstd::arithmetic::div_mod::{
    lemma_div_denominator, lemma_fundamental_div_mod, lemma_mod_bound,
};
use vstd::arithmetic::power::{lemma_pow0, lemma_pow_positive, pow};
use vstd::prelude::*;
use vstd::string::StringExecFns;

verus! {

/// The character for the decimal digit `d`.
pub open spec fn digit_char(d: nat) -> char {
    if d == 0 {
        '0'
    } else if d == 1 {
        '1'
    } else if d == 2 {
        '2'
    } else if d == 3 {
        '3'
    } else if d == 4 {
        '4'
    } else if d == 5 {
        '5'
    } else if d == 6 {
        '6'
    } else if d == 7 {
        '7'
    } else if d == 8 {
        '8'
    } else {
        '9'
    }
}

/// `n` in decimal, without leading zeros.
pub open spec fn decimal(n: nat) -> Seq<char>
    decreases n,
{
    if n < 10 {
        seq![digit_char(n)]
    } else {
        decimal(n / 10).push(digit_char(n % 10))
    }
}

/// The items one after the other, with a comma and a space between each two.
pub open spec fn comma_separated(items: Seq<Seq<char>>) -> Seq<char>
    decreases items.len(),
{
    if items.len() == 0 {
        Seq::empty()
    } else if items.len() == 1 {
        items[0]
    } else {
        comma_separated(items.drop_last()) + seq![',', ' '] + items.last()
    }
}

/// The items as a list: separated by commas, between square brackets.
pub open spec fn bracketed(items: Seq<Seq<char>>) -> Seq<char> {
    seq!['['] + comma_separated(items) + seq![']']
}

/// The list of the first `k + 1` items is the list of the first `k`, then
/// the separator unless `k` is 0, then item `k`.
pub proof fn lemma_comma_separated_step(items: Seq<Seq<char>>, k: int)
    requires
        0 <= k < items.len(),
    ensures
        comma_separated(items.take(k + 1)) == if k == 0 {
            items[k]
        } else {
            comma_separated(items.take(k)) + seq![',', ' '] + items[k]
        },
{
    let front = items.take(k + 1);
    assert(front.last() == items[k]);
    assert(front.drop_last() =~= items.take(k));
    if k == 0 {
        assert(front[0] == items[0]);
    }
}

/// The one-character string for the decimal digit `d`.
fn digit_str(d: usize) -> (s: &'static str)
    requires
        d < 10,
    ensures
        s@ == seq![digit_char(d as nat)],
{
    proof {
        reveal_strlit("0");
        reveal_strlit("1");
        reveal_strlit("2");
        reveal_strlit("3");
        reveal_strlit("4");
        reveal_strlit("5");
        reveal_strlit("6");
        reveal_strlit("7");
        reveal_strlit("8");
        reveal_strlit("9");
    }
    let s = if d == 0 {
        "0"
    } else if d == 1 {
        "1"
    } else if d == 2 {
        "2"
    } else if d == 3 {
        "3"
    } else if d == 4 {
        "4"
    } else if d == 5 {
        "5"
    } else if d == 6 {
        "6"
    } else if d == 7 {
        "7"
    } else if d == 8 {
        "8"
    } else {
        "9"
    };
    assert(s@ =~= seq![digit_char(d as nat)]);
    s
}

/// Each power of ten is positive, and ten times the one before it.
proof fn lemma_power_of_ten(k: nat)
    ensures
        pow(10, k) >= 1,
        pow(10, k + 1) == 10 * pow(10, k),
        pow(10, 0) == 1,
{
    reveal(pow);
    lemma_pow_positive(10, k);
    lemma_pow0(10);
}

/// Appends `n` in decimal to `out`.
///
/// The digits are written from the first to the last: the largest power of
/// ten that is at most `n` gives the first, and each smaller one the next.
pub fn append_decimal(out: &mut String, n: usize)
    ensures
        final(out)@ == old(out)@ + decimal(n as nat),
{
    let mut divisor: usize = 1;
    let ghost mut k: nat = 0;
    proof {
        lemma_power_of_ten(0);
    }
    while n / divisor >= 10
        invariant
            divisor == pow(10, k),
            divisor >= 1,
            divisor == 1 || n / divisor >= 1,
        decreases n - divisor,
    {
        proof {
            lemma_power_of_ten(k);
            lemma_div_denominator(n as int, divisor as int, 10);
            lemma_fundamental_div_mod(n as int, divisor as int);
            lemma_mod_bound(n as int, divisor as int);
            let q = (n / divisor) as int;
            let r = (n % divisor) as int;
            assert(divisor * 10 <= n) by (nonlinear_arith)
                requires
                    q >= 10,
                    divisor >= 1,
                    n == divisor * q + r,
                    r >= 0,
            ;
            assert((n / divisor) / 10 >= 1);
            k = k + 1;
        }
        divisor = divisor * 10;
    }
    out.append(digit_str(n / divisor));
    assert(out@ =~= old(out)@ + decimal((n / divisor) as nat));
    while divisor > 1
        invariant
            divisor == pow(10, k),
            divisor >= 1,
            divisor == 1 || n / divisor >= 1,
            out@ == old(out)@ + decimal((n / divisor) as nat),
        decreases divisor,
    {
        let ghost above = (n / divisor) as nat;
        proof {
            if k == 0 {
                lemma_power_of_ten(0);
            }
            lemma_power_of_ten((k - 1) as nat);
            k = (k - 1) as nat;
        }
        divisor = divisor / 10;
        let digit = (n / divisor) % 10;
        proof {
            lemma_div_denominator(n as int, divisor as int, 10);
            assert((n / divisor) / 10 == above);
        }
        out.append(digit_str(digit));
        assert(out@ =~= old(out)@ + decimal((n / divisor) as nat)) by {
            assert(decimal((n / divisor) as nat) =~= decimal(above).push(digit_char(digit as nat)));
        }
    }
    assert(divisor == 1);
    assert(n / 1 == n);
}

} // verus!
