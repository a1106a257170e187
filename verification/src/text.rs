//! Textual rendering of numbers, and character-level string comparison.
use vstd::prelude::*;

verus! {

/// The character for one digit value below 16: `0`..`9` then `a`..`f`.
pub open spec fn digit_char(d: nat) -> char {
    if d == 0 {
        '0'
    } else if d == 1 {
        '1'
    } else if d == 2 {
        '2'
    } else if d == 3 {
        '3'
    } else if d == 4 {
        '4'
    } else if d == 5 {
        '5'
    } else if d == 6 {
        '6'
    } else if d == 7 {
        '7'
    } else if d == 8 {
        '8'
    } else if d == 9 {
        '9'
    } else if d == 10 {
        'a'
    } else if d == 11 {
        'b'
    } else if d == 12 {
        'c'
    } else if d == 13 {
        'd'
    } else if d == 14 {
        'e'
    } else {
        'f'
    }
}

/// The decimal rendering of a number, without leading zeros.
pub open spec fn dec_str(n: nat) -> Seq<char>
    decreases n,
{
    if n < 10 {
        seq![digit_char(n)]
    } else {
        dec_str(n / 10).push(digit_char(n % 10))
    }
}

/// The lowercase hexadecimal rendering of a number, without leading zeros.
pub open spec fn hex_str(n: nat) -> Seq<char>
    decreases n,
{
    if n < 16 {
        seq![digit_char(n)]
    } else {
        hex_str(n / 16).push(digit_char(n % 16))
    }
}

/// One digit value as a one-character string slice.
pub fn digit_str(d: u8) -> (r: &'static str)
    requires
        d < 16,
    ensures
        r@ =~= seq![digit_char(d as nat)],
{
    let r: &'static str = match d {
        0 => "0",
        1 => "1",
        2 => "2",
        3 => "3",
        4 => "4",
        5 => "5",
        6 => "6",
        7 => "7",
        8 => "8",
        9 => "9",
        10 => "a",
        11 => "b",
        12 => "c",
        13 => "d",
        14 => "e",
        _ => "f",
    };
    proof {
        reveal_strlit("0");
        reveal_strlit("1");
        reveal_strlit("2");
        reveal_strlit("3");
        reveal_strlit("4");
        reveal_strlit("5");
        reveal_strlit("6");
        reveal_strlit("7");
        reveal_strlit("8");
        reveal_strlit("9");
        reveal_strlit("a");
        reveal_strlit("b");
        reveal_strlit("c");
        reveal_strlit("d");
        reveal_strlit("e");
        reveal_strlit("f");
    }
    r
}

/// Renders a byte in decimal.
pub fn dec_u8(n: u8) -> (r: String)
    ensures
        r@ == dec_str(n as nat),
{
    let mut s = String::new();
    if n >= 100 {
        s.append(digit_str(n / 100));
    }
    if n >= 10 {
        s.append(digit_str((n / 10) % 10));
    }
    s.append(digit_str(n % 10));
    proof {
        if n < 10 {
            assert(s@ =~= dec_str(n as nat));
        } else if n < 100 {
            assert(n as nat / 10 < 10);
            assert(s@ =~= dec_str(n as nat / 10).push(digit_char(n as nat % 10)));
        } else {
            assert(n as nat / 10 >= 10);
            assert(n as nat / 10 / 10 == n as nat / 100) by (nonlinear_arith);
            assert(n as nat / 100 < 10);
            assert(dec_str(n as nat / 10) =~= dec_str(n as nat / 10 / 10).push(
                digit_char(n as nat / 10 % 10),
            ));
            assert(s@ =~= dec_str(n as nat / 10).push(digit_char(n as nat % 10)));
        }
    }
    s
}

/// Renders a 16-bit group in lowercase hexadecimal.
pub fn hex_u16(n: u16) -> (r: String)
    ensures
        r@ == hex_str(n as nat),
{
    let mut s = String::new();
    if n >= 0x1000 {
        s.append(digit_str((n / 0x1000) as u8));
    }
    if n >= 0x100 {
        s.append(digit_str(((n / 0x100) % 16) as u8));
    }
    if n >= 0x10 {
        s.append(digit_str(((n / 0x10) % 16) as u8));
    }
    s.append(digit_str((n % 16) as u8));
    proof {
        let m = n as nat;
        if n < 0x10 {
            assert(s@ =~= hex_str(m));
        } else if n < 0x100 {
            assert(m / 16 < 16);
            assert(s@ =~= hex_str(m / 16).push(digit_char(m % 16)));
        } else if n < 0x1000 {
            assert(m / 16 / 16 == m / 0x100) by (nonlinear_arith);
            assert(m / 0x100 < 16);
            assert(hex_str(m / 16) =~= hex_str(m / 16 / 16).push(digit_char(m / 16 % 16)));
            assert(m / 16 % 16 == m / 0x10 % 16) by (nonlinear_arith);
            assert(s@ =~= hex_str(m / 16).push(digit_char(m % 16)));
        } else {
            assert(m / 16 / 16 == m / 0x100) by (nonlinear_arith);
            assert(m / 16 / 16 / 16 == m / 0x1000) by (nonlinear_arith);
            assert(m / 0x1000 < 16);
            assert(m / 16 % 16 == m / 0x10 % 16) by (nonlinear_arith);
            assert(m / 0x100 % 16 == m / 16 / 16 % 16) by (nonlinear_arith);
            assert(hex_str(m / 16 / 16) =~= hex_str(m / 16 / 16 / 16).push(
                digit_char(m / 16 / 16 % 16),
            ));
            assert(hex_str(m / 16) =~= hex_str(m / 16 / 16).push(digit_char(m / 16 % 16)));
            assert(s@ =~= hex_str(m / 16).push(digit_char(m % 16)));
        }
    }
    s
}

/// Character-by-character equality of two string slices.
pub fn str_eq(a: &str, b: &str) -> (r: bool)
    ensures
        r == (a@ == b@),
{
    let alen = a.unicode_len();
    let blen = b.unicode_len();
    if alen != blen {
        proof {
            assert(a@ != b@);
        }
        return false;
    }
    let mut i: usize = 0;
    while i < alen
        invariant
            alen == a@.len(),
            blen == b@.len(),
            alen == blen,
            i <= alen,
            forall|j: int| 0 <= j < i ==> a@[j] == b@[j],
        decreases alen - i,
    {
        if a.get_char(i) != b.get_char(i) {
            proof {
                assert(a@[i as int] != b@[i as int]);
            }
            return false;
        }
        i += 1;
    }
    proof {
        assert(a@ =~= b@);
    }
    true
}

} // verus!
