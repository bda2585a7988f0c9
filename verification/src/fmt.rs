//! Rendering of floor lists: a comma-separated list of decimal floor
//! indices, optionally wrapped in brackets.

use vstd::prelude::*;

verus! {

/// The character of a single decimal digit.
pub open spec fn digit_char(d: nat) -> char {
    if d == 0 {
        '0'
    } else if d == 1 {
        '1'
    } else if d == 2 {
        '2'
    } else if d == 3 {
        '3'
    } else if d == 4 {
        '4'
    } else if d == 5 {
        '5'
    } else if d == 6 {
        '6'
    } else if d == 7 {
        '7'
    } else if d == 8 {
        '8'
    } else {
        '9'
    }
}

/// The decimal rendering of a number, most significant digit first.
pub open spec fn dec_chars(v: nat) -> Seq<char>
    decreases v,
{
    if v < 10 {
        seq![digit_char(v)]
    } else {
        dec_chars(v / 10).push(digit_char(v % 10))
    }
}

/// The comma-separated rendering of a floor list.
pub open spec fn comma_sep(s: Seq<usize>) -> Seq<char>
    decreases s.len(),
{
    if s.len() == 0 {
        Seq::empty()
    } else if s.len() == 1 {
        dec_chars(s[0] as nat)
    } else {
        comma_sep(s.drop_last()) + seq![',', ' '] + dec_chars(s.last() as nat)
    }
}

/// Relies on String::push: appends exactly one character at the end.
#[verifier::external_body]
fn string_push_char(s: &mut String, c: char)
    ensures
        final(s)@ == old(s)@.push(c),
{
    s.push(c)
}

/// Relies on String::push_str: appends exactly the given characters at
/// the end.
#[verifier::external_body]
fn string_push_str(s: &mut String, t: &str)
    ensures
        final(s)@ == old(s)@ + t@,
{
    s.push_str(t)
}

/// The character of one digit.
fn digit_to_char(d: usize) -> (c: char)
    requires
        d < 10,
    ensures
        c == digit_char(d as nat),
{
    if d == 0 {
        '0'
    } else if d == 1 {
        '1'
    } else if d == 2 {
        '2'
    } else if d == 3 {
        '3'
    } else if d == 4 {
        '4'
    } else if d == 5 {
        '5'
    } else if d == 6 {
        '6'
    } else if d == 7 {
        '7'
    } else if d == 8 {
        '8'
    } else {
        '9'
    }
}

/// Appends the decimal rendering of `v`.
fn push_decimal(s: &mut String, v: usize)
    ensures
        final(s)@ == old(s)@ + dec_chars(v as nat),
    decreases v,
{
    let ghost s0 = s@;
    if v >= 10 {
        push_decimal(s, v / 10);
    }
    let c = digit_to_char(v % 10);
    string_push_char(s, c);
    proof {
        if v < 10 {
            assert(v % 10 == v as nat);
            assert(dec_chars(v as nat) =~= seq![digit_char(v as nat)]);
            assert(s@ =~= s0 + dec_chars(v as nat));
        } else {
            assert(dec_chars(v as nat) == dec_chars(v as nat / 10).push(digit_char(v as nat % 10)));
            assert(v as nat / 10 == (v / 10) as nat);
            assert(s@ =~= s0 + dec_chars(v as nat));
        }
    }
}

/// Renders the floors as decimal indices separated by ", ".
pub fn make_floor_list_str(floors: &Vec<usize>) -> (r: String)
    ensures
        r@ == comma_sep(floors@),
{
    let mut ln = String::new();
    let mut i: usize = 0;
    while i < floors.len()
        invariant
            i <= floors@.len(),
            i == 0 ==> ln@ == Seq::<char>::empty(),
            0 < i < floors@.len() ==> ln@ == comma_sep(floors@.take(i as int)) + seq![',', ' '],
            i == floors@.len() ==> ln@ == comma_sep(floors@),
        decreases floors@.len() - i,
    {
        let ghost before = ln@;
        push_decimal(&mut ln, floors[i]);
        proof {
            assert(floors@.take(i + 1).len() == i + 1);
            if i == 0 {
                assert(floors@.take(1)[0] == floors@[0]);
                assert(ln@ =~= comma_sep(floors@.take(1)));
            } else {
                assert(floors@.take(i + 1).drop_last() =~= floors@.take(i as int));
                assert(floors@.take(i + 1).last() == floors@[i as int]);
                assert(comma_sep(floors@.take(i + 1)) == comma_sep(floors@.take(i as int)) + seq![
                    ',',
                    ' ',
                ] + dec_chars(floors@[i as int] as nat));
                assert(ln@ =~= comma_sep(floors@.take(i + 1)));
            }
            assert(floors@.take(floors@.len() as int) =~= floors@);
        }
        if i + 1 < floors.len() {
            string_push_str(&mut ln, ", ");
            proof {
                reveal_strlit(", ");
                assert(", "@ =~= seq![',', ' ']);
            }
        }
        i += 1;
    }
    proof {
        if floors@.len() == 0 {
            assert(ln@ =~= comma_sep(floors@));
        }
    }
    ln
}

/// Renders the floors as "[a, b, c]".
pub fn fmt_iter(floors: &Vec<usize>) -> (r: String)
    ensures
        r@ == seq!['['] + comma_sep(floors@) + seq![']'],
{
    let mut r = String::new();
    string_push_char(&mut r, '[');
    let inner = make_floor_list_str(floors);
    string_push_str(&mut r, inner.as_str());
    string_push_char(&mut r, ']');
    proof {
        assert(r@ =~= seq!['['] + comma_sep(floors@) + seq![']']);
    }
    r
}

} // verus!
