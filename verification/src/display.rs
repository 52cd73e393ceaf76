//! Rendering binary data in a display-able form.
//!
//! Short byte strings are shown whole as a decimal list; longer ones show
//! their first and last four bytes as two-digit lowercase hex, joined by
//! two dots. The exact character sequence of the result is part of the
//! contract.

use vstd::prelude::*;

use crate::random::push_char;

verus! {

/// The lowercase hex character of a value below 16.
pub open spec fn hex_char(n: u8) -> char
    recommends
        n < 16,
{
    if n < 10 {
        (n + 48) as char
    } else {
        (n + 87) as char
    }
}

/// The decimal character of a value below 10.
pub open spec fn dec_char(n: u8) -> char
    recommends
        n < 10,
{
    (n + 48) as char
}

/// Two lowercase hex characters of a byte.
pub open spec fn spec_hex_byte(b: u8) -> Seq<char> {
    seq![hex_char(b / 16), hex_char(b % 16)]
}

/// The decimal characters of a byte, without leading zeros.
pub open spec fn spec_dec_byte(b: u8) -> Seq<char> {
    if b < 10 {
        seq![dec_char(b)]
    } else if b < 100 {
        seq![dec_char(b / 10), dec_char(b % 10)]
    } else {
        seq![dec_char(b / 100), dec_char((b / 10) % 10), dec_char(b % 10)]
    }
}

/// The bytes as a comma-separated decimal list.
pub open spec fn spec_dec_list(s: Seq<u8>) -> Seq<char>
    decreases s.len(),
{
    if s.len() == 0 {
        Seq::empty()
    } else if s.len() == 1 {
        spec_dec_byte(s[0])
    } else {
        spec_dec_byte(s[0]) + seq![',', ' '] + spec_dec_list(s.drop_first())
    }
}

/// The display form of a byte string: the full decimal list in brackets
/// when it has fewer than eight bytes, else the hex form of its first and
/// last four bytes.
pub open spec fn spec_bin_data_format(s: Seq<u8>) -> Seq<char> {
    if s.len() < 8 {
        seq!['[', ' ', '['] + spec_dec_list(s) + seq![']', ' ', ']']
    } else {
        seq!['[', ' '] + spec_hex_byte(s[0]) + seq![' '] + spec_hex_byte(s[1]) + seq![' ']
            + spec_hex_byte(s[2]) + seq![' '] + spec_hex_byte(s[3]) + seq!['.', '.']
            + spec_hex_byte(s[s.len() - 4]) + seq![' '] + spec_hex_byte(s[s.len() - 3])
            + seq![' '] + spec_hex_byte(s[s.len() - 2]) + seq![' '] + spec_hex_byte(
            s[s.len() - 1],
        ) + seq![' ', ']']
    }
}

fn hex_char_of(n: u8) -> (c: char)
    requires
        n < 16,
    ensures
        c == hex_char(n),
{
    if n < 10 {
        (n + 48) as char
    } else {
        (n + 87) as char
    }
}

fn push_hex_byte(out: &mut String, b: u8)
    ensures
        final(out)@ == old(out)@ + spec_hex_byte(b),
{
    let hi = hex_char_of(b / 16);
    let lo = hex_char_of(b % 16);
    push_char(out, hi);
    push_char(out, lo);
    proof {
        assert(out@ =~= old(out)@ + spec_hex_byte(b));
    }
}

fn push_dec_byte(out: &mut String, b: u8)
    ensures
        final(out)@ == old(out)@ + spec_dec_byte(b),
{
    if b < 10 {
        push_char(out, (b + 48) as char);
    } else if b < 100 {
        push_char(out, (b / 10 + 48) as char);
        push_char(out, (b % 10 + 48) as char);
    } else {
        push_char(out, (b / 100 + 48) as char);
        push_char(out, ((b / 10) % 10 + 48) as char);
        push_char(out, (b % 10 + 48) as char);
    }
    proof {
        assert(out@ =~= old(out)@ + spec_dec_byte(b));
    }
}

fn push_dec_list(out: &mut String, s: &[u8])
    ensures
        final(out)@ == old(out)@ + spec_dec_list(s@),
    decreases s@.len(),
{
    if s.len() == 0 {
        proof {
            assert(out@ =~= old(out)@ + spec_dec_list(s@));
        }
    } else if s.len() == 1 {
        push_dec_byte(out, s[0]);
    } else {
        push_dec_byte(out, s[0]);
        push_char(out, ',');
        push_char(out, ' ');
        let rest = vstd::slice::slice_subrange(s, 1, s.len());
        push_dec_list(out, rest);
        proof {
            assert(rest@ =~= s@.drop_first());
            assert(out@ =~= old(out)@ + spec_dec_list(s@));
        }
    }
}

/// Convert binary data to a display-able format.
pub fn bin_data_format(data: &[u8]) -> (r: String)
    ensures
        r@ == spec_bin_data_format(data@),
{
    let len = data.len();
    let mut out = String::new();
    push_char(&mut out, '[');
    push_char(&mut out, ' ');
    if len < 8 {
        push_char(&mut out, '[');
        push_dec_list(&mut out, data);
        push_char(&mut out, ']');
    } else {
        push_hex_byte(&mut out, data[0]);
        push_char(&mut out, ' ');
        push_hex_byte(&mut out, data[1]);
        push_char(&mut out, ' ');
        push_hex_byte(&mut out, data[2]);
        push_char(&mut out, ' ');
        push_hex_byte(&mut out, data[3]);
        push_char(&mut out, '.');
        push_char(&mut out, '.');
        push_hex_byte(&mut out, data[len - 4]);
        push_char(&mut out, ' ');
        push_hex_byte(&mut out, data[len - 3]);
        push_char(&mut out, ' ');
        push_hex_byte(&mut out, data[len - 2]);
        push_char(&mut out, ' ');
        push_hex_byte(&mut out, data[len - 1]);
    }
    push_char(&mut out, ' ');
    push_char(&mut out, ']');
    proof {
        assert(out@ =~= spec_bin_data_format(data@));
    }
    out
}

} // verus!
