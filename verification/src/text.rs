//! Numbers, hashes and addresses as text.

use vstd::prelude::*;

use crate::primitives::{Address, ShellHash};

verus! {

/// The character of a digit in base sixteen, in lower case.
pub open spec fn digit_char(d: nat) -> char {
    if d < 10 {
        (48 + d) as char
    } else {
        (87 + d) as char
    }
}

/// A number in decimal notation.
pub open spec fn decimal(n: nat) -> Seq<char>
    decreases n,
{
    if n < 10 {
        seq![digit_char(n)]
    } else {
        decimal(n / 10).push(digit_char(n % 10))
    }
}

/// A number in lower-case hexadecimal notation, without leading zeros.
pub open spec fn hexadecimal(n: nat) -> Seq<char>
    decreases n,
{
    if n < 16 {
        seq![digit_char(n)]
    } else {
        hexadecimal(n / 16).push(digit_char(n % 16))
    }
}

/// Two lower-case hexadecimal digits for every byte.
pub open spec fn hex_bytes(bytes: Seq<u8>) -> Seq<char>
    decreases bytes.len(),
{
    if bytes.len() == 0 {
        Seq::empty()
    } else {
        hex_bytes(bytes.drop_last()).push(digit_char((bytes.last() / 16) as nat)).push(
            digit_char((bytes.last() % 16) as nat),
        )
    }
}

/// `0x` and two digits for every byte.
pub open spec fn prefixed_hex(bytes: Seq<u8>) -> Seq<char> {
    "0x"@ + hex_bytes(bytes)
}

/// The value of a hexadecimal digit.
pub open spec fn digit_value(c: char) -> Option<nat> {
    if '0' <= c <= '9' {
        Some((c as u32 - 48) as nat)
    } else if 'a' <= c <= 'f' {
        Some((c as u32 - 87) as nat)
    } else if 'A' <= c <= 'F' {
        Some((c as u32 - 55) as nat)
    } else {
        None
    }
}

/// Reads a hexadecimal digit.
pub fn read_digit(c: char) -> (r: Option<u64>)
    ensures
        match r {
            Some(d) => digit_value(c) == Some(d as nat) && d < 16,
            None => digit_value(c) is None,
        },
{
    if '0' <= c && c <= '9' {
        Some((c as u32 - 48) as u64)
    } else if 'a' <= c && c <= 'f' {
        Some((c as u32 - 87) as u64)
    } else if 'A' <= c && c <= 'F' {
        Some((c as u32 - 55) as u64)
    } else {
        None
    }
}

fn push_digit(out: &mut String, d: u64)
    requires
        d < 16,
    ensures
        final(out)@ == old(out)@.push(digit_char(d as nat)),
{
    proof {
        reveal_strlit("0");
        reveal_strlit("1");
        reveal_strlit("2");
        reveal_strlit("3");
        reveal_strlit("4");
        reveal_strlit("5");
        reveal_strlit("6");
        reveal_strlit("7");
        reveal_strlit("8");
        reveal_strlit("9");
        reveal_strlit("a");
        reveal_strlit("b");
        reveal_strlit("c");
        reveal_strlit("d");
        reveal_strlit("e");
        reveal_strlit("f");
    }
    let digit: &str = match d {
        0 => "0",
        1 => "1",
        2 => "2",
        3 => "3",
        4 => "4",
        5 => "5",
        6 => "6",
        7 => "7",
        8 => "8",
        9 => "9",
        10 => "a",
        11 => "b",
        12 => "c",
        13 => "d",
        14 => "e",
        _ => "f",
    };
    assert(digit@ =~= seq![digit_char(d as nat)]);
    out.append(digit);
    assert(out@ =~= old(out)@.push(digit_char(d as nat)));
}

/// Appends a number in decimal notation.
pub fn push_decimal(out: &mut String, n: u64)
    ensures
        final(out)@ == old(out)@ + decimal(n as nat),
    decreases n,
{
    if n >= 10 {
        push_decimal(out, n / 10);
    }
    push_digit(out, n % 10);
    assert(out@ =~= old(out)@ + decimal(n as nat));
}

/// Appends a number of up to 128 bits in decimal notation.
pub fn push_wide_decimal(out: &mut String, n: u128)
    ensures
        final(out)@ == old(out)@ + decimal(n as nat),
    decreases n,
{
    if n >= 10 {
        push_wide_decimal(out, n / 10);
    }
    push_digit(out, (n % 10) as u64);
    assert(out@ =~= old(out)@ + decimal(n as nat));
}

/// Appends a number in hexadecimal notation.
pub fn push_hexadecimal(out: &mut String, n: u64)
    ensures
        final(out)@ == old(out)@ + hexadecimal(n as nat),
    decreases n,
{
    if n >= 16 {
        push_hexadecimal(out, n / 16);
    }
    push_digit(out, n % 16);
    assert(out@ =~= old(out)@ + hexadecimal(n as nat));
}

fn push_prefixed_hex(out: &mut String, bytes: &[u8; 32])
    ensures
        final(out)@ == old(out)@ + prefixed_hex(bytes@),
{
    out.append("0x");
    let ghost start = out@;
    let mut i: usize = 0;
    assert(bytes@.take(0) =~= Seq::<u8>::empty());
    assert(out@ =~= start + hex_bytes(bytes@.take(0)));
    while i < 32
        invariant
            i <= 32,
            out@ == start + hex_bytes(bytes@.take(i as int)),
        decreases 32 - i,
    {
        let b: u64 = bytes[i] as u64;
        push_digit(out, b / 16);
        push_digit(out, b % 16);
        proof {
            let shown = bytes@.take(i + 1);
            assert(shown.drop_last() =~= bytes@.take(i as int));
            assert(shown.last() == bytes@[i as int]);
            assert(out@ =~= start + hex_bytes(shown));
        }
        i += 1;
    }
    assert(bytes@.take(32) =~= bytes@);
    assert(out@ =~= old(out)@ + prefixed_hex(bytes@));
}

/// Appends a hash, as `0x` and sixty-four digits.
pub fn push_hash(out: &mut String, hash: &ShellHash)
    ensures
        final(out)@ == old(out)@ + prefixed_hex(hash.bytes@),
{
    push_prefixed_hex(out, &hash.bytes);
}

/// Appends an address, as `0x` and sixty-four digits.
pub fn push_address(out: &mut String, address: &Address)
    ensures
        final(out)@ == old(out)@ + prefixed_hex(address.bytes@),
{
    push_prefixed_hex(out, &address.bytes);
}

/// The number that some decimal digits stand for.
pub open spec fn decimal_value(digits: Seq<char>) -> nat
    decreases digits.len(),
{
    if digits.len() == 0 {
        0
    } else {
        10 * decimal_value(digits.drop_last()) + (digits.last() as u32 - '0' as u32) as nat
    }
}

/// A number in decimal notation has only decimal digits, stands for the number, and starts with no
/// zero unless it is zero.
pub proof fn law_decimal_notation(n: nat)
    ensures
        decimal_value(decimal(n)) == n,
        decimal(n).len() > 0,
        forall|i: int| 0 <= i < decimal(n).len() ==> '0' <= #[trigger] decimal(n)[i] <= '9',
        n > 0 ==> decimal(n)[0] != '0',
        n == 0 ==> decimal(n).len() == 1,
    decreases n,
{
    let shown = decimal(n);
    if n < 10 {
        reveal_with_fuel(decimal_value, 2);
        assert(shown.drop_last() =~= Seq::empty());
    } else {
        law_decimal_notation(n / 10);
        let high = decimal(n / 10);
        assert(shown.drop_last() =~= high);
        assert forall|i: int| 0 <= i < shown.len() implies '0' <= #[trigger] shown[i] <= '9' by {
            if i < high.len() {
                assert(shown[i] == high[i]);
            }
        }
        assert(shown[0] == high[0]);
    }
}

/// The digits of the base of sixteen are `0` to `9` and the letters `a` to `f`, small or capital, and
/// no other character is one. The one that is written for a value has that value and is no capital.
pub proof fn law_hexadecimal_digits(c: char, d: nat)
    requires
        d < 16,
    ensures
        digit_value(digit_char(d)) == Some(d),
        '0' <= digit_char(d) <= '9' || 'a' <= digit_char(d) <= 'f',
        digit_value(c) is Some <==> '0' <= c <= '9' || 'a' <= c <= 'f' || 'A' <= c <= 'F',
        '0' <= c <= '9' ==> digit_value(c)->0 == c as u32 - '0' as u32,
        'a' <= c <= 'f' ==> digit_value(c)->0 == 10 + (c as u32 - 'a' as u32),
        'A' <= c <= 'F' ==> digit_value(c)->0 == 10 + (c as u32 - 'A' as u32),
{
}

/// Bytes are written in two digits each, the higher one first, after `0x`.
pub proof fn law_two_digits_for_every_byte(bytes: Seq<u8>, i: int)
    requires
        0 <= i < bytes.len(),
    ensures
        hex_bytes(bytes).len() == 2 * bytes.len(),
        digit_value(hex_bytes(bytes)[2 * i]) == Some((bytes[i] / 16) as nat),
        digit_value(hex_bytes(bytes)[2 * i + 1]) == Some((bytes[i] % 16) as nat),
        prefixed_hex(bytes).len() == 2 + 2 * bytes.len(),
        prefixed_hex(bytes)[0] == '0',
        prefixed_hex(bytes)[1] == 'x',
        prefixed_hex(bytes)[2 + 2 * i] == hex_bytes(bytes)[2 * i],
        prefixed_hex(bytes)[3 + 2 * i] == hex_bytes(bytes)[2 * i + 1],
{
    reveal_strlit("0x");
    lemma_two_digits(bytes, i);
}

proof fn lemma_two_digits(bytes: Seq<u8>, i: int)
    requires
        0 <= i < bytes.len(),
    ensures
        hex_bytes(bytes).len() == 2 * bytes.len(),
        digit_value(hex_bytes(bytes)[2 * i]) == Some((bytes[i] / 16) as nat),
        digit_value(hex_bytes(bytes)[2 * i + 1]) == Some((bytes[i] % 16) as nat),
    decreases bytes.len(),
{
    let init = bytes.drop_last();
    let before = hex_bytes(init);
    let all = hex_bytes(bytes);
    if init.len() > 0 {
        lemma_two_digits(init, if i < init.len() {
            i
        } else {
            0
        });
    }
    let last = bytes.last();
    assert(all == before.push(digit_char((last / 16) as nat)).push(digit_char((last % 16) as nat)));
    law_hexadecimal_digits('0', (last / 16) as nat);
    law_hexadecimal_digits('0', (last % 16) as nat);
    if i < init.len() {
        assert(all[2 * i] == before[2 * i]);
        assert(all[2 * i + 1] == before[2 * i + 1]);
    }
}

/// A number in hexadecimal notation has only digits and small letters, ends with the digit of its
/// remainder by sixteen after the notation of its quotient, and starts with no zero unless it is zero.
pub proof fn law_hexadecimal_notation(n: nat)
    ensures
        hexadecimal(n).len() > 0,
        forall|i: int|
            0 <= i < hexadecimal(n).len() ==> '0' <= #[trigger] hexadecimal(n)[i] <= '9' || 'a'
                <= hexadecimal(n)[i] <= 'f',
        digit_value(hexadecimal(n).last()) == Some(n % 16),
        n >= 16 ==> hexadecimal(n).drop_last() == hexadecimal(n / 16),
        n < 16 ==> hexadecimal(n).len() == 1,
        n > 0 ==> hexadecimal(n)[0] != '0',
    decreases n,
{
    let shown = hexadecimal(n);
    law_hexadecimal_digits('0', n % 16);
    if n >= 16 {
        law_hexadecimal_notation(n / 16);
        let high = hexadecimal(n / 16);
        assert(shown.drop_last() =~= high);
        assert forall|i: int| 0 <= i < shown.len() implies '0' <= #[trigger] shown[i] <= '9' || 'a'
            <= shown[i] <= 'f' by {
            if i < high.len() {
                assert(shown[i] == high[i]);
            }
        }
        assert(shown[0] == high[0]);
    }
}

} // verus!
