//! Character classes and decimal rendering shared by the scanner, the code
//! generator (minted label names) and the assembly printer.

use vstd::prelude::*;

use vstd::string::StringExecFns;

verus! {

/// The character for one decimal digit value.
pub open spec fn digit_char(d: int) -> char {
    if d == 0 {
        '0'
    } else if d == 1 {
        '1'
    } else if d == 2 {
        '2'
    } else if d == 3 {
        '3'
    } else if d == 4 {
        '4'
    } else if d == 5 {
        '5'
    } else if d == 6 {
        '6'
    } else if d == 7 {
        '7'
    } else if d == 8 {
        '8'
    } else {
        '9'
    }
}

/// Decimal digit characters of `n`, most significant first.
pub open spec fn dec_digits(n: nat) -> Seq<char>
    decreases n,
{
    if n < 10 {
        seq![digit_char(n as int)]
    } else {
        dec_digits(n / 10) + seq![digit_char((n % 10) as int)]
    }
}

/// Decimal text of a possibly negative integer.
pub open spec fn int_dec(v: int) -> Seq<char> {
    if v < 0 {
        seq!['-'] + dec_digits((-v) as nat)
    } else {
        dec_digits(v as nat)
    }
}

/// Relies on String::push: appends exactly one character at the end.
#[verifier::external_body]
pub fn push_char(s: &mut String, c: char)
    ensures
        final(s)@ == old(s)@ + seq![c],
{
    s.push(c);
}

fn digit_char_of(d: u64) -> (r: char)
    requires
        d < 10,
    ensures
        r == digit_char(d as int),
{
    if d == 0 {
        '0'
    } else if d == 1 {
        '1'
    } else if d == 2 {
        '2'
    } else if d == 3 {
        '3'
    } else if d == 4 {
        '4'
    } else if d == 5 {
        '5'
    } else if d == 6 {
        '6'
    } else if d == 7 {
        '7'
    } else if d == 8 {
        '8'
    } else {
        '9'
    }
}

pub fn u64_to_dec(n: u64) -> (r: String)
    ensures
        r@ == dec_digits(n as nat),
{
    let mut digits: Vec<char> = Vec::new();
    let mut m: u64 = n;
    digits.push(digit_char_of(m % 10));
    m = m / 10;
    proof {
        if n < 10 {
            assert(digits@.reverse() =~= seq![digit_char(n as int)]);
        } else {
            assert(digits@.reverse() =~= seq![digit_char(((n as nat) % 10) as int)]);
            assert(dec_digits(n as nat) == dec_digits((n as nat) / 10) + seq![
                digit_char(((n as nat) % 10) as int),
            ]);
        }
    }
    while m > 0
        invariant
            m > 0 ==> dec_digits(n as nat) == dec_digits(m as nat) + digits@.reverse(),
            m == 0 ==> dec_digits(n as nat) == digits@.reverse(),
        decreases m,
    {
        let ghost prev = digits@;
        let ghost m0: nat = m as nat;
        digits.push(digit_char_of(m % 10));
        proof {
            assert(digits@.reverse() =~= seq![digit_char((m0 % 10) as int)] + prev.reverse());
            if m0 >= 10 {
                assert(dec_digits(m0) == dec_digits(m0 / 10) + seq![
                    digit_char((m0 % 10) as int),
                ]);
            } else {
                assert(dec_digits(m0) == seq![digit_char(m0 as int)]);
                assert(m0 % 10 == m0);
            }
        }
        m = m / 10;
        proof {
            assert(m as nat == m0 / 10);
            if m > 0 {
                assert(dec_digits(n as nat) =~= dec_digits(m as nat) + digits@.reverse());
            } else {
                assert(dec_digits(n as nat) =~= digits@.reverse());
            }
        }
    }
    let mut s = String::new();
    let mut i: usize = digits.len();
    proof {
        assert(digits@.skip(i as int).reverse() =~= Seq::<char>::empty());
    }
    while i > 0
        invariant
            i <= digits@.len(),
            s@ == digits@.skip(i as int).reverse(),
            dec_digits(n as nat) == digits@.reverse(),
        decreases i,
    {
        i = i - 1;
        push_char(&mut s, digits[i]);
        proof {
            assert(s@ =~= digits@.skip(i as int).reverse());
        }
    }
    proof {
        assert(digits@.skip(0) =~= digits@);
    }
    s
}

pub fn i64_to_dec(v: i64) -> (r: String)
    ensures
        r@ == int_dec(v as int),
{
    if v >= 0 {
        let r = u64_to_dec(v as u64);
        r
    } else {
        let mag: u64 = ((-(v + 1)) as u64) + 1;
        proof {
            assert(mag as int == -(v as int));
        }
        let mut s = String::new();
        push_char(&mut s, '-');
        let d = u64_to_dec(mag);
        s.append(d.as_str());
        proof {
            assert(s@ =~= int_dec(v as int));
        }
        s
    }
}

} // verus!
