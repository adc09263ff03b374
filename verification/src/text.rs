//! Writing numbers and bytes as text.

#[allow(unused_imports)]
use vstd::arithmetic::power::pow;
use vstd::prelude::*;
use vstd::string::StringExecFns;

verus! {

/// The character of a hexadecimal digit.
pub open spec fn digit(value: int) -> char {
    "0123456789abcdef"@[value]
}

/// The decimal digits of a number.
pub open spec fn decimal(value: nat) -> Seq<char>
    decreases value,
{
    if value < 10 {
        seq![digit(value as int)]
    } else {
        decimal(value / 10).push(digit((value % 10) as int))
    }
}

/// The hexadecimal digits of the last `n` bytes, the last byte first.
pub open spec fn reversed_hex(bytes: Seq<u8>, n: nat) -> Seq<char>
    decreases n,
{
    if n == 0 {
        Seq::empty()
    } else {
        let byte = bytes[bytes.len() - n];
        reversed_hex(bytes, (n - 1) as nat).push(digit(byte as int / 16)).push(
            digit(byte as int % 16),
        )
    }
}

/// The text of one digit.
fn digit_text(value: u8) -> (text: &'static str)
    requires
        value < 16,
    ensures
        text@ == seq![digit(value as int)],
{
    proof {
        reveal_strlit("0123456789abcdef");
        reveal_strlit("0");
        reveal_strlit("1");
        reveal_strlit("2");
        reveal_strlit("3");
        reveal_strlit("4");
        reveal_strlit("5");
        reveal_strlit("6");
        reveal_strlit("7");
        reveal_strlit("8");
        reveal_strlit("9");
        reveal_strlit("a");
        reveal_strlit("b");
        reveal_strlit("c");
        reveal_strlit("d");
        reveal_strlit("e");
        reveal_strlit("f");
    }
    let text: &'static str = match value {
        0 => "0",
        1 => "1",
        2 => "2",
        3 => "3",
        4 => "4",
        5 => "5",
        6 => "6",
        7 => "7",
        8 => "8",
        9 => "9",
        10 => "a",
        11 => "b",
        12 => "c",
        13 => "d",
        14 => "e",
        _ => "f",
    };
    assert(text@ =~= seq![digit(value as int)]);
    text
}

/// Appends the decimal digits of a number.
pub fn append_decimal(text: &mut String, value: u64)
    ensures
        final(text)@ == old(text)@ + decimal(value as nat),
    decreases value,
{
    let ghost before = text@;
    if value >= 10 {
        append_decimal(text, value / 10);
    }
    text.append(digit_text((value % 10) as u8));
    assert(text@ =~= before + decimal(value as nat));
}

/// Appends the hexadecimal digits of bytes, the last byte first.
pub fn append_reversed_hex(text: &mut String, bytes: &[u8])
    ensures
        final(text)@ == old(text)@ + reversed_hex(bytes@, bytes@.len()),
{
    let ghost before = text@;
    let mut n: usize = 0;
    assert(text@ =~= before + reversed_hex(bytes@, 0));
    while n < bytes.len()
        invariant
            n <= bytes@.len(),
            text@ == before + reversed_hex(bytes@, n as nat),
        decreases bytes@.len() - n,
    {
        let byte: u8 = bytes[bytes.len() - 1 - n];
        text.append(digit_text(byte / 16));
        text.append(digit_text(byte % 16));
        n = n + 1;
        assert(text@ =~= before + reversed_hex(bytes@, n as nat));
    }
}

/// Whether every character is a decimal digit.
pub open spec fn all_digits(chars: Seq<char>) -> bool {
    forall|i: int| 0 <= i < chars.len() ==> '0' <= #[trigger] chars[i] <= '9'
}

/// The number that decimal digits show, each worth ten times the next.
pub open spec fn amount(chars: Seq<char>) -> int
    decreases chars.len(),
{
    if chars.len() == 0 {
        0
    } else {
        (chars[0] as int - '0' as int) * pow(10, (chars.len() - 1) as nat) + amount(
            chars.drop_first(),
        )
    }
}

/// One more digit makes a number ten times as large, and adds itself.
pub proof fn lemma_amount(chars: Seq<char>, last: char)
    ensures
        amount(chars.push(last)) == 10 * amount(chars) + (last as int - '0' as int),
    decreases chars.len(),
{
    let longer = chars.push(last);
    vstd::arithmetic::power::lemma_pow0(10);
    if chars.len() == 0 {
        assert(longer.drop_first() =~= Seq::<char>::empty());
        assert(amount(longer.drop_first()) == 0);
    } else {
        let rest = chars.drop_first();
        lemma_amount(rest, last);
        assert(longer.drop_first() =~= rest.push(last));
        reveal(pow);
        let power = pow(10, (chars.len() - 1) as nat);
        assert(pow(10, chars.len()) == 10 * power);
        assert((chars[0] as int - '0' as int) * (10 * power) == 10 * ((chars[0] as int
            - '0' as int) * power)) by (nonlinear_arith);
    }
}

/// A number is written in decimal digits that show it, without a zero in front.
pub proof fn law_decimal(value: nat)
    ensures
        decimal(value).len() > 0,
        all_digits(decimal(value)),
        amount(decimal(value)) == value,
        decimal(value)[0] == '0' ==> value == 0,
    decreases value,
{
    reveal_strlit("0123456789abcdef");
    let last = digit((value % 10) as int);
    let before = if value < 10 {
        Seq::empty()
    } else {
        decimal(value / 10)
    };
    if value >= 10 {
        law_decimal(value / 10);
    } else {
        assert(before.push(last) =~= decimal(value));
    }
    lemma_amount(before, last);
    assert(decimal(value) == before.push(last));
}

/// The character of a number below sixteen.
pub open spec fn hexadecimal(value: int) -> char {
    if value < 10 {
        ('0' as int + value) as char
    } else {
        ('a' as int + value - 10) as char
    }
}

/// Bytes are written from the last to the first, each as the digit of its upper four bits
/// and that of its lower ones.
pub proof fn law_reversed_hex(bytes: Seq<u8>, n: nat)
    requires
        n <= bytes.len(),
    ensures
        reversed_hex(bytes, n).len() == 2 * n,
        forall|i: int|
            0 <= i < n ==> {
                let byte = #[trigger] bytes[bytes.len() - 1 - i] as int;
                &&& reversed_hex(bytes, n)[2 * i] == hexadecimal(byte / 16)
                &&& reversed_hex(bytes, n)[2 * i + 1] == hexadecimal(byte % 16)
            },
    decreases n,
{
    reveal_strlit("0123456789abcdef");
    if n > 0 {
        law_reversed_hex(bytes, (n - 1) as nat);
        let before = reversed_hex(bytes, (n - 1) as nat);
        assert forall|i: int| 0 <= i < n implies {
            let byte = #[trigger] bytes[bytes.len() - 1 - i] as int;
            &&& reversed_hex(bytes, n)[2 * i] == hexadecimal(byte / 16)
            &&& reversed_hex(bytes, n)[2 * i + 1] == hexadecimal(byte % 16)
        } by {
            if i < n - 1 {
                assert(reversed_hex(bytes, n)[2 * i] == before[2 * i]);
                assert(reversed_hex(bytes, n)[2 * i + 1] == before[2 * i + 1]);
            }
        }
    }
}

} // verus!
