//! What the numbers in messages say.

use crate::gpu::{decimal, digit};
use vstd::prelude::*;

verus! {

/// The number that a digit stands for.
pub open spec fn digit_value(c: char) -> int {
    c as int - '0' as int
}

/// The number that a text of digits stands for.
pub open spec fn text_value(text: Seq<char>) -> int
    decreases text.len(),
{
    if text.len() == 0 {
        0
    } else {
        10 * text_value(text.drop_last()) + digit_value(text.last())
    }
}

proof fn lemma_digit(d: nat)
    requires
        d < 10,
    ensures
        digit_value(digit(d)) == d,
{
    assert(d == 0 || d == 1 || d == 2 || d == 3 || d == 4 || d == 5 || d == 6 || d == 7 || d == 8 || d == 9);
}

/// A number in decimal digits says the number, and does not start with a nought unless it
/// is nought.
pub proof fn decimals_say_their_number(n: nat)
    ensures
        text_value(decimal(n)) == n,
        decimal(n).len() > 0,
        n > 0 ==> decimal(n)[0] != '0',
        forall|i: int| 0 <= i < decimal(n).len() ==> 0 <= #[trigger] digit_value(decimal(n)[i]) < 10,
    decreases n,
{
    if n < 10 {
        lemma_digit(n);
        assert(decimal(n).drop_last() =~= Seq::<char>::empty());
        assert(text_value(decimal(n).drop_last()) == 0);
        assert(n > 0 ==> digit_value(decimal(n)[0]) != 0);
    } else {
        let text = decimal(n);
        let front = decimal(n / 10);
        decimals_say_their_number(n / 10);
        lemma_digit(n % 10);
        assert(text.drop_last() =~= front);
        assert(text[0] == front[0]);
        assert forall|i: int| 0 <= i < text.len() implies 0 <= #[trigger] digit_value(text[i]) < 10 by {
            if i < front.len() {
                assert(text[i] == front[i]);
            }
        }
    }
}

} // verus!
