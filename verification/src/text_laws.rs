//! What numerals and hexadecimal text give back of numbers and bytes.
use vstd::prelude::*;

use crate::number::{signed64, unsigned64};
use crate::text::{decimal, digit_char, hex_bytes, numeral};

verus! {

/// The value of a digit: `0` to `9`, then `a` to `f`.
pub open spec fn digit_value(c: char) -> int {
    if '0' <= c <= '9' {
        c as int - '0' as int
    } else if 'a' <= c <= 'f' {
        c as int - 'a' as int + 10
    } else {
        -1
    }
}

/// The number that digits spell, the most significant first.
pub open spec fn spelled(s: Seq<char>, base: int) -> int
    decreases s.len(),
{
    if s.len() == 0 {
        0
    } else {
        spelled(s.drop_last(), base) * base + digit_value(s.last())
    }
}

/// A numeral spells its number in digits of its base, and starts with a zero only
/// where it is zero.
pub proof fn law_numerals_spell_their_numbers(n: nat, base: nat)
    requires
        2 <= base <= 16,
    ensures
        numeral(n, base).len() > 0,
        spelled(numeral(n, base), base as int) == n,
        forall|i: int|
            0 <= i < numeral(n, base).len() ==> 0 <= digit_value(#[trigger] numeral(n, base)[i])
                < base,
        n > 0 ==> numeral(n, base)[0] != '0',
    decreases n,
{
    let s = numeral(n, base);
    if n < base {
        assert(s.drop_last() =~= Seq::empty());
        assert(spelled(s.drop_last(), base as int) == 0);
        assert(digit_value(s.last()) == n);
    } else {
        assert(n / base < n && n / base > 0) by (nonlinear_arith)
            requires
                n >= base,
                base >= 2,
        ;
        assert(n == (n / base) * base + n % base && 0 <= n % base < base) by (nonlinear_arith)
            requires
                base >= 2,
        ;
        law_numerals_spell_their_numbers(n / base, base);
        let front = numeral(n / base, base);
        assert(s.drop_last() =~= front);
        assert(digit_value(s.last()) == n % base);
        assert forall|i: int| 0 <= i < s.len() implies 0 <= digit_value(#[trigger] s[i]) < base by {
            if i < front.len() {
                assert(s[i] == front[i]);
            }
        }
        assert(s[0] == front[0]);
    }
}

/// The decimal text of an integer is a sign where it is negative, and then the
/// digits of its magnitude.
pub proof fn law_decimals_spell_their_integers(n: int)
    ensures
        n >= 0 ==> spelled(decimal(n), 10) == n && decimal(n).len() > 0 && decimal(n)[0] != '-',
        n < 0 ==> decimal(n).len() > 1 && decimal(n)[0] == '-' && spelled(decimal(n).skip(1), 10)
            == -n && decimal(n)[1] != '0',
        n > 0 ==> decimal(n)[0] != '0',
{
    if n >= 0 {
        law_numerals_spell_their_numbers(n as nat, 10);
        assert(0 <= digit_value(numeral(n as nat, 10)[0]));
    } else {
        law_numerals_spell_their_numbers((-n) as nat, 10);
        assert(decimal(n).skip(1) =~= numeral((-n) as nat, 10));
        assert(decimal(n)[1] == numeral((-n) as nat, 10)[0]);
    }
}

/// Two digits of a text, in place `i`, spell a byte, the high one first.
pub open spec fn spells_byte(s: Seq<char>, i: int, b: u8) -> bool {
    let hi = digit_value(s[2 * i]);
    let lo = digit_value(s[2 * i + 1]);
    0 <= hi < 16 && 0 <= lo < 16 && b == 16 * hi + lo
}

/// Hexadecimal text has two digits for every byte, and they spell the byte.
pub proof fn law_hex_spells_the_bytes(bytes: Seq<u8>)
    ensures
        hex_bytes(bytes).len() == 2 * bytes.len(),
        forall|i: int| 0 <= i < bytes.len() ==> spells_byte(hex_bytes(bytes), i, #[trigger] bytes[i]),
    decreases bytes.len(),
{
    if bytes.len() > 0 {
        let front = bytes.drop_last();
        law_hex_spells_the_bytes(front);
        let s = hex_bytes(bytes);
        let t = hex_bytes(front);
        assert forall|i: int| 0 <= i < bytes.len() implies spells_byte(
            s,
            i,
            #[trigger] bytes[i],
        ) by {
            if i < front.len() {
                assert(spells_byte(t, i, front[i]));
                assert(s[2 * i] == t[2 * i]);
                assert(s[2 * i + 1] == t[2 * i + 1]);
            } else {
                let b = bytes.last() as int;
                assert(s[2 * i] == digit_char(b / 16));
                assert(s[2 * i + 1] == digit_char(b % 16));
            }
        }
    }
}

/// Sixty-four bits and the integer that they stand for differ by whole turns, and
/// each is got back from the other.
pub proof fn law_integers_are_bits(v: i64, n: u64)
    ensures
        0 <= unsigned64(v as int) < 0x1_0000_0000_0000_0000,
        unsigned64(v as int) == v as int % 0x1_0000_0000_0000_0000,
        signed64(unsigned64(v as int)) == v,
        -0x8000_0000_0000_0000 <= signed64(n as nat) < 0x8000_0000_0000_0000,
        unsigned64(signed64(n as nat)) == n,
        n < 0x8000_0000_0000_0000 ==> signed64(n as nat) == n,
{
}

} // verus!
