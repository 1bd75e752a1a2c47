//! What numbers look like as text.

use crate::text::{decimal_text, digits, padded};
use vstd::prelude::*;

verus! {

/// Reads one digit more.
pub open spec fn read_digit() -> spec_fn(int, char) -> int {
    |n: int, c: char| 10 * n + (c as int - '0' as int)
}

/// The digits of a number read as the number, each of them is a digit, and the first is zero for
/// nothing but zero.
pub proof fn digits_read_as_the_number(n: nat)
    ensures
        digits(n).fold_left(0, read_digit()) == n,
        digits(n).len() > 0,
        forall|i: int| 0 <= i < digits(n).len() ==> '0' <= #[trigger] digits(n)[i] <= '9',
        n > 0 ==> digits(n)[0] != '0',
    decreases n,
{
    let s = digits(n);
    if n < 10 {
        assert(s.drop_last() =~= Seq::<char>::empty());
        assert(s.drop_last().fold_left(0, read_digit()) == 0);
    } else {
        digits_read_as_the_number(n / 10);
        assert(s.drop_last() =~= digits(n / 10));
    }
}

/// A number below zero has a sign and the digits of what is left without it; any other has its digits.
pub proof fn negative_numbers_have_a_sign(n: int)
    ensures
        n >= 0 ==> decimal_text(n).fold_left(0, read_digit()) == n,
        n < 0 ==> decimal_text(n)[0] == '-' && decimal_text(n).skip(1).fold_left(0, read_digit()) == -n,
{
    if n >= 0 {
        digits_read_as_the_number(n as nat);
    } else {
        digits_read_as_the_number((-n) as nat);
        assert(decimal_text(n).skip(1) =~= digits((-n) as nat));
    }
}

/// A text that is filled up begins with the text, goes on with spaces, and is as long as asked for, or
/// as the text where this is longer.
pub proof fn padding_adds_spaces(s: Seq<char>, width: nat)
    ensures
        padded(s, width).len() == (if s.len() >= width {
            s.len()
        } else {
            width
        }),
        forall|i: int| 0 <= i < s.len() ==> #[trigger] padded(s, width)[i] == s[i],
        forall|i: int| s.len() <= i < padded(s, width).len() ==> #[trigger] padded(s, width)[i] == ' ',
{
}

} // verus!
