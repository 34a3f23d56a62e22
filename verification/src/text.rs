//! Numbers and values as text.

use vstd::prelude::*;
use crate::bits;
use crate::bitvec::BitVec;

verus! {

/// A digit, in a base of at most 16.
pub open spec fn digit(d: int) -> char {
    if d == 0 {
        '0'
    } else if d == 1 {
        '1'
    } else if d == 2 {
        '2'
    } else if d == 3 {
        '3'
    } else if d == 4 {
        '4'
    } else if d == 5 {
        '5'
    } else if d == 6 {
        '6'
    } else if d == 7 {
        '7'
    } else if d == 8 {
        '8'
    } else if d == 9 {
        '9'
    } else if d == 10 {
        'a'
    } else if d == 11 {
        'b'
    } else if d == 12 {
        'c'
    } else if d == 13 {
        'd'
    } else if d == 14 {
        'e'
    } else {
        'f'
    }
}

/// A number in base 10, or else in base 16.
pub open spec fn numeral(n: nat, base: nat) -> Seq<char>
    decreases n,
{
    if base == 10 {
        if n < 10 {
            seq![digit(n as int)]
        } else {
            numeral(n / 10, base).push(digit((n % 10) as int))
        }
    } else {
        if n < 16 {
            seq![digit(n as int)]
        } else {
            numeral(n / 16, base).push(digit((n % 16) as int))
        }
    }
}

/// A value as text: its number in base 16 and its width.
pub open spec fn value_text(v: Seq<bool>) -> Seq<char> {
    seq!['0', 'x'] + numeral(bits::nat_of(v), 16) + seq![':'] + numeral(v.len(), 10)
}

/// A digit.
fn digit_text(d: u64) -> (r: &'static str)
    requires
        d < 16,
    ensures
        r@ == seq![digit(d as int)],
{
    proof {
        reveal_strlit("0");
        reveal_strlit("1");
        reveal_strlit("2");
        reveal_strlit("3");
        reveal_strlit("4");
        reveal_strlit("5");
        reveal_strlit("6");
        reveal_strlit("7");
        reveal_strlit("8");
        reveal_strlit("9");
        reveal_strlit("a");
        reveal_strlit("b");
        reveal_strlit("c");
        reveal_strlit("d");
        reveal_strlit("e");
        reveal_strlit("f");
    }
    let r = match d {
        0 => "0",
        1 => "1",
        2 => "2",
        3 => "3",
        4 => "4",
        5 => "5",
        6 => "6",
        7 => "7",
        8 => "8",
        9 => "9",
        10 => "a",
        11 => "b",
        12 => "c",
        13 => "d",
        14 => "e",
        _ => "f",
    };
    assert(r@ =~= seq![digit(d as int)]);
    r
}

/// A number in base 10.
pub fn decimal(n: u64) -> (r: String)
    ensures
        r@ == numeral(n as nat, 10),
    decreases n,
{
    if n < 10 {
        return digit_text(n).to_string();
    }
    let mut r = decimal(n / 10);
    let ghost front = r@;
    r.append(digit_text(n % 10));
    assert(r@ =~= front.push(digit((n % 10) as int)));
    r
}

/// The digits of a value in base 16.
fn hex_digits(v: &BitVec) -> (r: String)
    ensures
        r@ == numeral(bits::nat_of(v@), 16),
    decreases v@.len(),
{
    let n: usize = if v.len() < 4 {
        v.len()
    } else {
        4
    };
    let low = v.extract(0, n);
    let high = v.extract(n, v.len() - n);
    proof {
        assert(v@ =~= low@ + high@);
        bits::lemma_nat_concat(low@, high@);
        bits::lemma_nat_bound(low@);
        vstd::arithmetic::power2::lemma2_to64();
        bits::lemma_pow2_le(n as nat, 4);
    }
    let d: u64 = match low.to_u64() {
        Some(d) => d,
        None => 0,
    };
    assert(d == bits::nat_of(low@) && d < 16);
    if v.len() <= 4 || high.is_zero() {
        proof {
            if v@.len() <= 4 {
                assert(high@ =~= Seq::<bool>::empty());
                assert(bits::nat_of(high@) == 0);
            }
            assert(vstd::arithmetic::power2::pow2(low@.len()) * 0 == 0);
        }
        return digit_text(d).to_string();
    }
    let mut r = hex_digits(&high);
    let ghost front = r@;
    r.append(digit_text(d));
    proof {
        let h = bits::nat_of(high@);
        let t = bits::nat_of(v@);
        assert(t == d + 16 * h);
        assert(h > 0);
        assert(t / 16 == h && t % 16 == d) by (nonlinear_arith)
            requires
                t == d + 16 * h,
                0 <= d < 16,
        ;
        assert(r@ =~= front.push(digit(d as int)));
    }
    r
}

/// A value as text.
pub fn value_string(v: &BitVec) -> (r: String)
    ensures
        r@ == value_text(v@),
{
    proof {
        reveal_strlit("0x");
        reveal_strlit(":");
    }
    let mut r = "0x".to_string();
    r.append(hex_digits(v).as_str());
    r.append(":");
    r.append(decimal(v.len() as u64).as_str());
    assert(r@ =~= value_text(v@));
    r
}

} // verus!
