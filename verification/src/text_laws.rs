//! What decimal numbers and joined lists read as.

use vstd::prelude::*;

use crate::text::{decimal, joined, led, signed_decimal};

verus! {

/// The number that a row of decimal digits stands for.
pub open spec fn value_of(digits: Seq<char>) -> int
    decreases digits.len(),
{
    if digits.len() == 0 {
        0
    } else {
        value_of(digits.drop_last()) * 10 + (digits.last() as int - '0' as int)
    }
}

/// The decimal text of a number holds digits only, stands for that number, and has no
/// zero in front of it.
pub proof fn law_decimal_reads_as_the_number(n: nat)
    ensures
        decimal(n).len() > 0,
        forall|i: int| 0 <= i < decimal(n).len() ==> '0' <= #[trigger] decimal(n)[i] <= '9',
        value_of(decimal(n)) == n,
        decimal(n).len() > 1 ==> decimal(n)[0] != '0',
    decreases n,
{
    reveal_strlit("0123456789");
    let none: Seq<char> = seq![];
    let digit = "0123456789"@[(n % 10) as int];
    assert(digit as int == '0' as int + n % 10);
    assert(value_of(none) == 0);
    if n < 10 {
        assert(decimal(n) =~= none.push(digit));
        assert(none.push(digit).drop_last() =~= none);
    } else {
        let front = decimal(n / 10);
        law_decimal_reads_as_the_number(n / 10);
        assert(front.push(digit).drop_last() =~= front);
        if front.len() == 1 {
            assert(front =~= none.push(front[0]));
            assert(front.drop_last() =~= none);
            assert(value_of(front) == value_of(front.drop_last()) * 10 + (front[0] as int
                - '0' as int));
        }
        assert forall|i: int| 0 <= i < decimal(n).len() implies '0' <= #[trigger] decimal(n)[i]
            <= '9' by {
            if i < front.len() {
                assert(decimal(n)[i] == front[i]);
            }
        }
    }
}

/// A negative number reads as a minus sign and its size, any other as itself.
pub proof fn law_signed_decimal_has_a_sign_below_zero(n: int)
    ensures
        n >= 0 ==> signed_decimal(n) == decimal(n as nat),
        n < 0 ==> signed_decimal(n) == seq!['-'] + decimal((-n) as nat),
{
    reveal_strlit("-");
    assert("-"@ =~= seq!['-']);
}

/// Nothing joined is nothing, a single part joined is that part, and one more part adds
/// the separator and the part.
pub proof fn law_joining_puts_the_separator_between(
    parts: Seq<Seq<char>>,
    part: Seq<char>,
    separator: Seq<char>,
)
    ensures
        joined(Seq::empty(), separator) == Seq::<char>::empty(),
        joined(seq![part], separator) == part,
        parts.len() > 0 ==> joined(parts.push(part), separator) == joined(parts, separator)
            + separator + part,
{
    let none: Seq<Seq<char>> = seq![];
    assert(seq![part].skip(1) =~= none);
    assert(led(none, separator) =~= seq![]);
    assert(joined(seq![part], separator) =~= part);
    if parts.len() > 0 {
        let more = parts.push(part);
        assert(more.skip(1) =~= parts.skip(1).push(part));
        assert(more.skip(1).drop_last() =~= parts.skip(1));
        assert(joined(more, separator) =~= joined(parts, separator) + separator + part);
    }
}

} // verus!
