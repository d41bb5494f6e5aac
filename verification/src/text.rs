//! Building diagnostic text: characters, literal pieces, and decimal
//! numbers appended to a `String`.

use vstd::prelude::*;
use vstd::string::StringExecFns;

verus! {

/// Calls `String::push`, which appends one character.
#[verifier::external_body]
pub(crate) fn push_char(text: &mut String, c: char)
    ensures
        final(text)@ == old(text)@.push(c),
{
    text.push(c)
}

/// Append the characters of a string slice.
pub(crate) fn push_str(text: &mut String, piece: &str)
    ensures
        final(text)@ == old(text)@ + piece@,
{
    text.append(piece)
}

/// The decimal digit character of `d`.
pub open spec fn digit_char(d: nat) -> char {
    (48 + d) as char
}

/// The decimal numeral of `v`, without leading zeros.
pub open spec fn decimal(v: nat) -> Seq<char>
    decreases v,
{
    if v < 10 {
        seq![digit_char(v)]
    } else {
        decimal(v / 10) + seq![digit_char(v % 10)]
    }
}

/// Append the decimal numeral of `v`.
pub(crate) fn push_decimal(text: &mut String, v: u64)
    ensures
        final(text)@ == old(text)@ + decimal(v as nat),
    decreases v,
{
    if v >= 10 {
        push_decimal(text, v / 10);
    }
    let d = (v % 10) as u8;
    push_char(text, (48 + d) as char);
    proof {
        if v >= 10 {
            assert(final(text)@ =~= old(text)@ + decimal(v as nat));
        } else {
            assert(final(text)@ =~= old(text)@ + decimal(v as nat));
        }
    }
}

} // verus!
