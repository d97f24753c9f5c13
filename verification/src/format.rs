//! Human-readable byte-size formatting.
//!
//! A byte count is reduced by factors of 1024 until it falls below 1024 or
//! the largest unit (terabytes) is reached, and printed with exactly one
//! fractional digit, rounding the exact value half-to-even, followed by the
//! unit symbol: `0` becomes `"0.0B"`, `1536` becomes `"1.5KB"`.

use vstd::prelude::*;

verus! {

/// How many times the count is divided by 1024: the smallest `k <= 4` with
/// `size < 1024^(k+1)`, capped at 4 (terabytes).
pub open spec fn unit_index(size: nat) -> nat {
    if size < 1024 {
        0
    } else if size < 1048576 {
        1
    } else if size < 1073741824 {
        2
    } else if size < 1099511627776 {
        3
    } else {
        4
    }
}

/// `1024^k` for `k <= 4`.
pub open spec fn unit_divisor(k: nat) -> nat {
    if k == 0 {
        1
    } else if k == 1 {
        1024
    } else if k == 2 {
        1048576
    } else if k == 3 {
        1073741824
    } else {
        1099511627776
    }
}

/// The exact value `10 * size / den`, rounded to the nearest integer with
/// ties going to the even neighbour — the rounding that standard one-decimal
/// formatting of the quotient applies.
pub open spec fn rounded_tenths(size: nat, den: nat) -> nat
    recommends
        den > 0,
{
    let q = (10 * size) / den;
    let r = (10 * size) % den;
    if 2 * r > den || (2 * r == den && q % 2 == 1) {
        q + 1
    } else {
        q
    }
}

/// The decimal digit character for `d < 10`.
pub open spec fn digit_char(d: nat) -> char {
    if d == 0 {
        '0'
    } else if d == 1 {
        '1'
    } else if d == 2 {
        '2'
    } else if d == 3 {
        '3'
    } else if d == 4 {
        '4'
    } else if d == 5 {
        '5'
    } else if d == 6 {
        '6'
    } else if d == 7 {
        '7'
    } else if d == 8 {
        '8'
    } else {
        '9'
    }
}

/// The decimal digit string of `n`, most significant digit first.
pub open spec fn dec_chars(n: nat) -> Seq<char>
    decreases n,
{
    if n < 10 {
        seq![digit_char(n)]
    } else {
        dec_chars(n / 10) + seq![digit_char(n % 10)]
    }
}

/// The unit symbol for `k` halvings by 1024.
pub open spec fn unit_suffix(k: nat) -> Seq<char> {
    if k == 0 {
        seq!['B']
    } else if k == 1 {
        seq!['K', 'B']
    } else if k == 2 {
        seq!['M', 'B']
    } else if k == 3 {
        seq!['G', 'B']
    } else {
        seq!['T', 'B']
    }
}

/// The full human-readable rendering of a byte count: the scaled value with
/// one fractional digit, then the unit symbol.
pub open spec fn human_size_spec(size: nat) -> Seq<char> {
    let k = unit_index(size);
    let q = rounded_tenths(size, unit_divisor(k));
    dec_chars(q / 10) + seq!['.'] + seq![digit_char(q % 10)] + unit_suffix(k)
}

fn digit_str(d: u64) -> (r: &'static str)
    requires
        d < 10,
    ensures
        r@ == seq![digit_char(d as nat)],
{
    if d == 0 {
        proof {
            reveal_strlit("0");
        }
        "0"
    } else if d == 1 {
        proof {
            reveal_strlit("1");
        }
        "1"
    } else if d == 2 {
        proof {
            reveal_strlit("2");
        }
        "2"
    } else if d == 3 {
        proof {
            reveal_strlit("3");
        }
        "3"
    } else if d == 4 {
        proof {
            reveal_strlit("4");
        }
        "4"
    } else if d == 5 {
        proof {
            reveal_strlit("5");
        }
        "5"
    } else if d == 6 {
        proof {
            reveal_strlit("6");
        }
        "6"
    } else if d == 7 {
        proof {
            reveal_strlit("7");
        }
        "7"
    } else if d == 8 {
        proof {
            reveal_strlit("8");
        }
        "8"
    } else {
        proof {
            reveal_strlit("9");
        }
        "9"
    }
}

/// The decimal digit string of `n`.
pub fn dec_string(n: u64) -> (s: String)
    ensures
        s@ == dec_chars(n as nat),
    decreases n,
{
    if n < 10 {
        let mut s = String::new();
        s.append(digit_str(n));
        proof {
            assert(s@ =~= dec_chars(n as nat));
        }
        s
    } else {
        let mut s = dec_string(n / 10);
        s.append(digit_str(n % 10));
        proof {
            assert(s@ =~= dec_chars(n as nat));
        }
        s
    }
}

fn unit_str(k: u64) -> (r: &'static str)
    requires
        k <= 4,
    ensures
        r@ == unit_suffix(k as nat),
{
    if k == 0 {
        proof {
            reveal_strlit("B");
        }
        "B"
    } else if k == 1 {
        proof {
            reveal_strlit("KB");
        }
        "KB"
    } else if k == 2 {
        proof {
            reveal_strlit("MB");
        }
        "MB"
    } else if k == 3 {
        proof {
            reveal_strlit("GB");
        }
        "GB"
    } else {
        proof {
            reveal_strlit("TB");
        }
        "TB"
    }
}

/// Renders a byte count as a magnitude with one fractional digit and a unit
/// symbol (B, KB, MB, GB or TB), dividing by 1024 until the value falls
/// below 1024 or the unit is exhausted.
pub fn human_size(size: u64) -> (r: String)
    ensures
        r@ == human_size_spec(size as nat),
{
    let (unit, den): (u64, u64) = if size < 1024 {
        (0, 1)
    } else if size < 1048576 {
        (1, 1024)
    } else if size < 1073741824 {
        (2, 1048576)
    } else if size < 1099511627776 {
        (3, 1073741824)
    } else {
        (4, 1099511627776)
    };
    proof {
        assert(unit as nat == unit_index(size as nat));
        assert(den as nat == unit_divisor(unit as nat));
    }
    let num: u128 = (size as u128) * 10;
    let den128: u128 = den as u128;
    let q0: u128 = num / den128;
    let rem: u128 = num % den128;
    proof {
        assert(num < 10240 * den128 || den128 == 1099511627776) by {
            if (size as nat) < 1024 * (den as nat) {
                assert(num < 10240 * den128) by (nonlinear_arith)
                    requires
                        num == (size as nat) * 10,
                        den128 == den as nat,
                        (size as nat) < 1024 * (den as nat),
                ;
            }
        }
        assert(q0 <= u64::MAX / 10) by (nonlinear_arith)
            requires
                den128 > 0,
                q0 == num / den128,
                num <= 10 * 0xffff_ffff_ffff_ffffu128,
                num < 10240 * den128 || den128 == 1099511627776,
        ;
        assert(rem < den128) by (nonlinear_arith)
            requires
                den128 > 0,
                rem == num % den128,
        ;
    }
    let q: u128 = if 2 * rem > den128 || (2 * rem == den128 && q0 % 2 == 1) {
        q0 + 1
    } else {
        q0
    };
    proof {
        assert(q as nat == rounded_tenths(size as nat, den as nat));
    }
    let q64: u64 = q as u64;
    let mut s = dec_string(q64 / 10);
    proof {
        reveal_strlit(".");
    }
    s.append(".");
    s.append(digit_str(q64 % 10));
    s.append(unit_str(unit));
    proof {
        assert(s@ =~= human_size_spec(size as nat));
    }
    s
}

} // verus!
