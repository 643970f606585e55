//! Text of numbers, for messages.

use vstd::prelude::*;
use vstd::string::*;

verus! {

/// The character of a decimal digit.
pub open spec fn digit(d: int) -> char {
    (d + 48) as char
}

/// A number in decimal notation, without leading zeros.
pub open spec fn decimal(n: nat) -> Seq<char>
    decreases n,
{
    if n < 10 {
        seq![digit(n as int)]
    } else {
        decimal(n / 10).push(digit((n % 10) as int))
    }
}

/// The text of one digit.
fn digit_text(d: u8) -> (text: &'static str)
    requires
        d < 10,
    ensures
        text@ == seq![digit(d as int)],
{
    proof {
        reveal_strlit("0");
        reveal_strlit("1");
        reveal_strlit("2");
        reveal_strlit("3");
        reveal_strlit("4");
        reveal_strlit("5");
        reveal_strlit("6");
        reveal_strlit("7");
        reveal_strlit("8");
        reveal_strlit("9");
    }
    let text: &'static str = match d {
        0 => "0",
        1 => "1",
        2 => "2",
        3 => "3",
        4 => "4",
        5 => "5",
        6 => "6",
        7 => "7",
        8 => "8",
        _ => "9",
    };
    assert(text@ =~= seq![digit(d as int)]);
    text
}

/// Appends a number in decimal notation.
pub fn push_decimal(out: &mut String, n: u64)
    ensures
        final(out)@ == old(out)@ + decimal(n as nat),
    decreases n,
{
    if n >= 10 {
        push_decimal(out, n / 10);
    }
    out.append(digit_text((n % 10) as u8));
    assert(out@ =~= old(out)@ + decimal(n as nat));
}

/// The elements of a list in decimal notation, with `, ` between them.
pub open spec fn joined(values: Seq<nat>) -> Seq<char>
    decreases values.len(),
{
    if values.len() == 0 {
        Seq::empty()
    } else if values.len() == 1 {
        decimal(values[0])
    } else {
        joined(values.drop_last()) + seq![',', ' '] + decimal(values.last())
    }
}

/// Bytes as the numbers they are.
pub open spec fn byte_values(bytes: Seq<u8>) -> Seq<nat> {
    Seq::new(bytes.len(), |i: int| bytes[i] as nat)
}

/// A list of numbers in square brackets.
pub open spec fn list_text(values: Seq<nat>) -> Seq<char> {
    seq!['['] + joined(values) + seq![']']
}

/// Appends bytes as a list of numbers in square brackets.
pub fn push_bytes(out: &mut String, bytes: &[u8])
    ensures
        final(out)@ == old(out)@ + list_text(byte_values(bytes@)),
{
    let ghost start = out@;
    let ghost values = byte_values(bytes@);
    proof {
        reveal_strlit("[");
        reveal_strlit("]");
        reveal_strlit(", ");
    }
    out.append("[");
    let mut i: usize = 0;
    assert(values.take(0) =~= Seq::empty());
    assert(out@ =~= start + seq!['['] + joined(values.take(0)));
    while i < bytes.len()
        invariant
            i <= bytes@.len(),
            values == byte_values(bytes@),
            ", "@ == seq![',', ' '],
            out@ == start + seq!['['] + joined(values.take(i as int)),
        decreases bytes@.len() - i,
    {
        if i > 0 {
            out.append(", ");
        }
        push_decimal(out, bytes[i] as u64);
        proof {
            let next = values.take(i + 1);
            assert(next.drop_last() =~= values.take(i as int));
            assert(next.last() == bytes@[i as int] as nat);
            assert(out@ =~= start + seq!['['] + joined(next));
        }
        i = i + 1;
    }
    out.append("]");
    proof {
        assert(values.take(values.len() as int) =~= values);
        assert(out@ =~= start + list_text(values));
    }
}

/// The number that decimal digits stand for.
pub open spec fn value_of(digits: Seq<char>) -> int
    decreases digits.len(),
{
    if digits.len() == 0 {
        0
    } else {
        10 * value_of(digits.drop_last()) + (digits.last() as int - '0' as int)
    }
}

/// A number is written in digits that stand for it, without a leading zero.
pub proof fn law_decimal_stands_for_the_number(n: nat)
    ensures
        value_of(decimal(n)) == n,
        decimal(n).len() > 0,
        forall|i: int|
            0 <= i < decimal(n).len() ==> '0' as int <= #[trigger] decimal(n)[i] as int
                <= '9' as int,
        n > 0 ==> decimal(n)[0] != '0',
    decreases n,
{
    let text = decimal(n);
    if n < 10 {
        assert(text.drop_last() =~= Seq::empty());
        assert(value_of(Seq::empty()) == 0);
    } else {
        law_decimal_stands_for_the_number(n / 10);
        assert(text.drop_last() =~= decimal(n / 10));
        assert(text[0] == decimal(n / 10)[0]);
        assert forall|i: int| 0 <= i < text.len() implies '0' as int <= #[trigger] text[i] as int
            <= '9' as int by {
            if i < text.len() - 1 {
                assert(text[i] == decimal(n / 10)[i]);
            }
        }
    }
}

/// A list is its numbers in order, between square brackets, with a comma and a
/// space between two.
pub proof fn law_list_text_grows_by_one(values: Seq<nat>, value: nat)
    ensures
        list_text(Seq::empty()) == seq!['[', ']'],
        list_text(seq![value]) == seq!['['] + decimal(value) + seq![']'],
        values.len() > 0 ==> list_text(values.push(value)) == list_text(values).drop_last()
            + seq![',', ' '] + decimal(value) + seq![']'],
{
    assert(list_text(Seq::empty()) =~= seq!['[', ']']);
    assert(values.push(value).drop_last() =~= values);
    if values.len() > 0 {
        assert(list_text(values.push(value)) =~= list_text(values).drop_last() + seq![',', ' ']
            + decimal(value) + seq![']']);
    }
}

/// Bytes are listed as the numbers that they are, in order.
pub proof fn law_bytes_are_listed_in_order(bytes: Seq<u8>, i: int)
    requires
        0 <= i < bytes.len(),
    ensures
        byte_values(bytes).len() == bytes.len(),
        byte_values(bytes)[i] == bytes[i],
{
}

} // verus!
