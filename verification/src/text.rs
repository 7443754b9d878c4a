//! Small pieces of text that messages and file names are made of.

use vstd::prelude::*;
use vstd::string::StringExecFns;

verus! {

/// The character of one decimal digit.
pub open spec fn digit_text(d: nat) -> Seq<char>
    recommends
        d < 10,
{
    if d == 0 {
        "0"@
    } else if d == 1 {
        "1"@
    } else if d == 2 {
        "2"@
    } else if d == 3 {
        "3"@
    } else if d == 4 {
        "4"@
    } else if d == 5 {
        "5"@
    } else if d == 6 {
        "6"@
    } else if d == 7 {
        "7"@
    } else if d == 8 {
        "8"@
    } else {
        "9"@
    }
}

/// The decimal numeral of `n`, without leading zeros.
pub open spec fn decimal_text(n: nat) -> Seq<char>
    decreases n,
{
    if n < 10 {
        digit_text(n)
    } else {
        decimal_text(n / 10) + digit_text(n % 10)
    }
}

/// `count` spaces.
pub open spec fn spaces(count: nat) -> Seq<char> {
    Seq::new(count, |i: int| ' ')
}

/// `s`, with spaces put before it until it is `width` characters long.
pub open spec fn right_aligned(s: Seq<char>, width: nat) -> Seq<char> {
    if s.len() >= width {
        s
    } else {
        spaces((width - s.len()) as nat) + s
    }
}

fn digit(d: u64) -> (s: &'static str)
    requires
        d < 10,
    ensures
        s@ == digit_text(d as nat),
{
    if d == 0 {
        "0"
    } else if d == 1 {
        "1"
    } else if d == 2 {
        "2"
    } else if d == 3 {
        "3"
    } else if d == 4 {
        "4"
    } else if d == 5 {
        "5"
    } else if d == 6 {
        "6"
    } else if d == 7 {
        "7"
    } else if d == 8 {
        "8"
    } else {
        "9"
    }
}

/// Writes `n` in decimal.
pub fn decimal(n: u64) -> (s: String)
    ensures
        s@ == decimal_text(n as nat),
    decreases n,
{
    if n < 10 {
        String::from_str(digit(n))
    } else {
        let mut s = decimal(n / 10);
        s.append(digit(n % 10));
        s
    }
}

/// Writes `s` after as many spaces as it takes to fill `width` characters.
pub fn pad_left(s: &String, width: usize) -> (r: String)
    ensures
        r@ == right_aligned(s@, width as nat),
{
    let len: usize = s.as_str().unicode_len();
    let mut r = String::new();
    if len < width {
        let mut i: usize = 0;
        while i < width - len
            invariant
                len < width,
                i <= width - len,
                r@ == spaces(i as nat),
            decreases width - len - i,
        {
            proof {
                reveal_strlit(" ");
                assert(spaces(i as nat) + " "@ =~= spaces((i + 1) as nat));
            }
            r.append(" ");
            i += 1;
        }
    } else {
        assert(r@ =~= spaces(0));
    }
    r.append(s.as_str());
    proof {
        if len >= width {
            assert(r@ =~= s@);
        }
    }
    r
}

} // verus!
