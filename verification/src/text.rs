use vstd::prelude::*;

verus! {

/// Relies on `String::push`: appends exactly the given character.
pub assume_specification[ String::push ](s: &mut String, c: char)
    ensures
        final(s)@ == old(s)@.push(c),
;

/// The decimal digit character for a value below ten.
pub open spec fn digit_char(d: int) -> char {
    if d == 0 { '0' }
    else if d == 1 { '1' }
    else if d == 2 { '2' }
    else if d == 3 { '3' }
    else if d == 4 { '4' }
    else if d == 5 { '5' }
    else if d == 6 { '6' }
    else if d == 7 { '7' }
    else if d == 8 { '8' }
    else { '9' }
}

/// Decimal digits of a non-negative value, most significant first.
pub open spec fn dec_digits(n: int) -> Seq<char>
    decreases n,
{
    if n < 10 {
        seq![digit_char(n)]
    } else {
        dec_digits(n / 10).push(digit_char(n % 10))
    }
}

/// Decimal representation of a signed value.
pub open spec fn dec_rep(n: int) -> Seq<char> {
    if n < 0 {
        seq!['-'] + dec_digits(-n)
    } else {
        dec_digits(n)
    }
}

fn digit_to_char(d: u64) -> (c: char)
    requires
        d < 10,
    ensures
        c == digit_char(d as int),
{
    match d {
        0 => '0',
        1 => '1',
        2 => '2',
        3 => '3',
        4 => '4',
        5 => '5',
        6 => '6',
        7 => '7',
        8 => '8',
        _ => '9',
    }
}

fn push_digits(s: &mut String, m: u64)
    ensures
        final(s)@ == old(s)@ + dec_digits(m as int),
    decreases m,
{
    if m >= 10 {
        push_digits(s, m / 10);
    }
    let d = digit_to_char(m % 10);
    s.push(d);
    proof {
        if m < 10 {
            assert(dec_digits(m as int) =~= seq![digit_char(m as int)]);
            assert(final(s)@ =~= old(s)@ + dec_digits(m as int));
        } else {
            assert(final(s)@ =~= old(s)@ + dec_digits(m as int));
        }
    }
}

/// Renders a signed value in decimal, exactly as `dec_rep` describes.
pub fn fmt_i32(n: i32) -> (s: String)
    ensures
        s@ == dec_rep(n as int),
{
    let mut s = String::new();
    let m: i64 = n as i64;
    if m < 0 {
        s.push('-');
        let mag: u64 = (-m) as u64;
        push_digits(&mut s, mag);
        proof {
            assert(s@ =~= dec_rep(n as int));
        }
    } else {
        push_digits(&mut s, m as u64);
        proof {
            assert(s@ =~= dec_rep(n as int));
        }
    }
    s
}

} // verus!
