//! Byte counts as text: 1024-based units B, KB, MB, GB, TB and PB, the
//! largest unit that the count reaches, two decimals above bytes.

use vstd::prelude::*;
use vstd::string::StringExecFns;

verus! {

/// 1024 to the power `u`.
pub open spec fn pow1024(u: nat) -> nat
    decreases u,
{
    if u == 0 {
        1
    } else {
        1024 * pow1024((u - 1) as nat)
    }
}

/// The largest unit index from `u` up to 5 that `size` reaches, when it
/// reaches `u`.
pub open spec fn unit_from(size: nat, u: nat) -> nat
    decreases 5 - u,
{
    if u < 5 && size >= pow1024(u + 1) {
        unit_from(size, u + 1)
    } else {
        u
    }
}

/// The unit in which `size` is shown: 0 for bytes up to 5 for petabytes.
pub open spec fn unit_index(size: nat) -> nat {
    unit_from(size, 0)
}

/// `size` in units of index `u`, in hundredths, rounded to the nearest and
/// to the even one on a tie.
pub open spec fn hundredths(size: nat, u: nat) -> nat {
    let d = pow1024(u);
    let q = size * 100 / d;
    let r = size * 100 % d;
    if 2 * r > d || (2 * r == d && q % 2 == 1) {
        q + 1
    } else {
        q
    }
}

/// The character of a decimal digit.
pub open spec fn digit_char(n: nat) -> char {
    if n == 0 {
        '0'
    } else if n == 1 {
        '1'
    } else if n == 2 {
        '2'
    } else if n == 3 {
        '3'
    } else if n == 4 {
        '4'
    } else if n == 5 {
        '5'
    } else if n == 6 {
        '6'
    } else if n == 7 {
        '7'
    } else if n == 8 {
        '8'
    } else {
        '9'
    }
}

/// `n` written in decimal, without leading zeros.
pub open spec fn decimal(n: nat) -> Seq<char>
    decreases n,
{
    if n < 10 {
        seq![digit_char(n)]
    } else {
        decimal(n / 10).push(digit_char(n % 10))
    }
}

/// The name of the unit of index `u`.
pub open spec fn unit_name(u: nat) -> Seq<char> {
    if u == 0 {
        seq!['B']
    } else if u == 1 {
        seq!['K', 'B']
    } else if u == 2 {
        seq!['M', 'B']
    } else if u == 3 {
        seq!['G', 'B']
    } else if u == 4 {
        seq!['T', 'B']
    } else {
        seq!['P', 'B']
    }
}

/// The text of a byte count: the exact count and " B" below 1024, else the
/// count in its unit with two decimals, a space and the unit.
pub open spec fn bytes_text(size: nat) -> Seq<char> {
    let u = unit_index(size);
    if u == 0 {
        decimal(size) + seq![' '] + unit_name(0)
    } else {
        let h = hundredths(size, u);
        decimal(h / 100) + seq!['.', digit_char((h % 100) / 10), digit_char(h % 10), ' ']
            + unit_name(u)
    }
}

fn digit_str(n: u128) -> (r: &'static str)
    requires
        n < 10,
    ensures
        r@ == seq![digit_char(n as nat)],
{
    if n == 0 {
        proof { reveal_strlit("0"); }
        "0"
    } else if n == 1 {
        proof { reveal_strlit("1"); }
        "1"
    } else if n == 2 {
        proof { reveal_strlit("2"); }
        "2"
    } else if n == 3 {
        proof { reveal_strlit("3"); }
        "3"
    } else if n == 4 {
        proof { reveal_strlit("4"); }
        "4"
    } else if n == 5 {
        proof { reveal_strlit("5"); }
        "5"
    } else if n == 6 {
        proof { reveal_strlit("6"); }
        "6"
    } else if n == 7 {
        proof { reveal_strlit("7"); }
        "7"
    } else if n == 8 {
        proof { reveal_strlit("8"); }
        "8"
    } else {
        proof { reveal_strlit("9"); }
        "9"
    }
}

fn push_decimal(s: &mut String, n: u128)
    ensures
        final(s)@ == old(s)@ + decimal(n as nat),
    decreases n,
{
    if n >= 10 {
        push_decimal(s, n / 10);
    }
    s.append(digit_str(n % 10));
    assert(s@ =~= old(s)@ + decimal(n as nat));
}

fn unit_str(u: usize) -> (r: &'static str)
    requires
        u <= 5,
    ensures
        r@ == unit_name(u as nat),
{
    if u == 0 {
        proof { reveal_strlit("B"); }
        "B"
    } else if u == 1 {
        proof { reveal_strlit("KB"); }
        "KB"
    } else if u == 2 {
        proof { reveal_strlit("MB"); }
        "MB"
    } else if u == 3 {
        proof { reveal_strlit("GB"); }
        "GB"
    } else if u == 4 {
        proof { reveal_strlit("TB"); }
        "TB"
    } else {
        proof { reveal_strlit("PB"); }
        "PB"
    }
}

/// A byte count as text, such as "512 B" or "1.50 KB".
pub fn format_bytes(size: u64) -> (r: String)
    ensures
        r@ == bytes_text(size as nat),
{
    let mut u: usize = 0;
    let mut d: u128 = 1;
    while u < 5 && size as u128 >= d * 1024
        invariant
            u <= 5,
            d as nat == pow1024(u as nat),
            u == 0 ==> d == 1,
            u == 1 ==> d == 1024,
            u == 2 ==> d == 1048576,
            u == 3 ==> d == 1073741824,
            u == 4 ==> d == 1099511627776,
            u == 5 ==> d == 1125899906842624,
            unit_index(size as nat) == unit_from(size as nat, u as nat),
        decreases 5 - u,
    {
        assert(pow1024((u + 1) as nat) == 1024 * pow1024(u as nat));
        d = d * 1024;
        u += 1;
    }
    if u == 0 {
        base_text(size)
    } else {
        let h = round_hundredths(size, d, u);
        unit_text(h, u)
    }
}

fn base_text(size: u64) -> (r: String)
    ensures
        r@ == decimal(size as nat) + seq![' '] + unit_name(0),
{
    let mut s = String::new();
    push_decimal(&mut s, size as u128);
    proof { reveal_strlit(" "); }
    s.append(" ");
    s.append(unit_str(0));
    assert(s@ =~= decimal(size as nat) + seq![' '] + unit_name(0));
    s
}

fn round_hundredths(size: u64, d: u128, u: usize) -> (h: u128)
    requires
        d as nat == pow1024(u as nat),
        1 <= d <= 1125899906842624,
    ensures
        h as nat == hundredths(size as nat, u as nat),
{
    let x: u128 = size as u128 * 100;
    let q = x / d;
    let rem = x % d;
    if 2 * rem > d || (2 * rem == d && q % 2 == 1) {
        q + 1
    } else {
        q
    }
}

fn unit_text(h: u128, u: usize) -> (r: String)
    requires
        1 <= u <= 5,
    ensures
        r@ == decimal((h / 100) as nat) + seq![
            '.',
            digit_char(((h % 100) / 10) as nat),
            digit_char((h % 10) as nat),
            ' ',
        ] + unit_name(u as nat),
{
    let mut s = String::new();
    push_decimal(&mut s, h / 100);
    proof { reveal_strlit("."); reveal_strlit(" "); }
    s.append(".");
    s.append(digit_str((h % 100) / 10));
    s.append(digit_str(h % 10));
    s.append(" ");
    s.append(unit_str(u));
    assert(s@ =~= decimal((h / 100) as nat) + seq![
        '.',
        digit_char(((h % 100) / 10) as nat),
        digit_char((h % 10) as nat),
        ' ',
    ] + unit_name(u as nat));
    s
}

} // verus!
