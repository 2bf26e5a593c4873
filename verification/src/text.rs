//! Building text: decimal numbers and joined lists.

use vstd::prelude::*;
use vstd::string::*;

verus! {

/// The decimal digits of a number, most significant first.
pub open spec fn decimal(n: nat) -> Seq<char>
    decreases n,
{
    if n < 10 {
        seq!["0123456789"@[n as int]]
    } else {
        decimal(n / 10).push("0123456789"@[(n % 10) as int])
    }
}

/// The decimal digits of a number, after a minus sign where it is negative.
pub open spec fn signed_decimal(n: int) -> Seq<char> {
    if n < 0 {
        "-"@ + decimal((-n) as nat)
    } else {
        decimal(n as nat)
    }
}

/// All parts, each with `lead` in front of it.
pub open spec fn led(parts: Seq<Seq<char>>, lead: Seq<char>) -> Seq<char>
    decreases parts.len(),
{
    if parts.len() == 0 {
        seq![]
    } else {
        led(parts.drop_last(), lead) + lead + parts.last()
    }
}

/// All parts, with `separator` between each two neighbours.
pub open spec fn joined(parts: Seq<Seq<char>>, separator: Seq<char>) -> Seq<char> {
    if parts.len() == 0 {
        seq![]
    } else {
        parts[0] + led(parts.skip(1), separator)
    }
}

/// What a list of strings holds.
pub open spec fn texts(list: Seq<String>) -> Seq<Seq<char>> {
    list.map_values(|s: String| s@)
}

/// What a list of text pairs holds.
pub open spec fn text_pairs(list: Seq<(String, String)>) -> Seq<(Seq<char>, Seq<char>)> {
    list.map_values(|pair: (String, String)| (pair.0@, pair.1@))
}

/// One more string extends the texts of a list by one.
pub proof fn lemma_texts_push(list: Seq<String>, next: String, all: Seq<Seq<char>>)
    requires
        list.len() < all.len(),
        texts(list) == all.take(list.len() as int),
        next@ == all[list.len() as int],
    ensures
        texts(list.push(next)) == all.take((list.len() + 1) as int),
{
    let longer = texts(list.push(next));
    assert forall|i: int| 0 <= i < longer.len() implies longer[i] == all.take(
        (list.len() + 1) as int,
    )[i] by {
        if i < list.len() {
            assert(texts(list)[i] == all.take(list.len() as int)[i]);
        }
    }
    assert(longer =~= all.take((list.len() + 1) as int));
}

/// Writes a number in decimal.
pub fn decimal_text(n: u64) -> (text: String)
    ensures
        text@ == decimal(n as nat),
    decreases n,
{
    proof {
        reveal_strlit("0123456789");
    }
    let last: usize = (n % 10) as usize;
    let digit = "0123456789".substring_ascii(last, last + 1);
    assert(digit@ =~= seq!["0123456789"@[(n % 10) as int]]);
    if n < 10 {
        digit.to_owned()
    } else {
        let mut text = decimal_text(n / 10);
        text.append(digit);
        assert(text@ =~= decimal(n as nat));
        text
    }
}

/// Writes a number in decimal, with a minus sign where it is negative.
pub fn signed_decimal_text(n: i64) -> (text: String)
    ensures
        text@ == signed_decimal(n as int),
{
    if n < 0 {
        let mut text = "-".to_owned();
        let size: u64 = (-(n as i128)) as u64;
        text.append(decimal_text(size).as_str());
        text
    } else {
        decimal_text(n as u64)
    }
}

/// Joins the strings of a list, with `separator` between each two neighbours.
pub fn join_text(list: &Vec<String>, separator: &str) -> (text: String)
    ensures
        text@ == joined(texts(list@), separator@),
{
    if list.len() == 0 {
        return String::new();
    }
    let ghost parts = texts(list@);
    let ghost rest = parts.skip(1);
    let mut text = list[0].clone();
    let mut i: usize = 1;
    assert(rest.take(0) =~= seq![]);
    assert(text@ =~= parts[0] + led(rest.take(0), separator@));
    while i < list.len()
        invariant
            1 <= i <= list@.len(),
            parts == texts(list@),
            rest == parts.skip(1),
            text@ == parts[0] + led(rest.take(i - 1), separator@),
        decreases list.len() - i,
    {
        text.append(separator);
        text.append(list[i].as_str());
        assert(rest.take(i as int).drop_last() =~= rest.take(i - 1));
        assert(rest.take(i as int).last() == list@[i as int]@);
        i += 1;
        assert(text@ =~= parts[0] + led(rest.take(i - 1), separator@));
    }
    assert(rest.take(i - 1) =~= rest);
    text
}

} // verus!
