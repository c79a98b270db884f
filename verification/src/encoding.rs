//! Numbers and bytes written as text, and read back.
//!
//! Version identifiers are the lower-case hexadecimal form of a counter, and
//! entity tags are the hexadecimal form of a digest. Both directions are
//! defined here on sequences of characters, and the executable functions are
//! proved to compute them.

use vstd::prelude::*;
use vstd::string::*;

verus! {

/// The character for the digit `d` in any radix up to sixteen.
pub open spec fn digit_char(d: nat) -> char {
    if d == 0 {
        '0'
    } else if d == 1 {
        '1'
    } else if d == 2 {
        '2'
    } else if d == 3 {
        '3'
    } else if d == 4 {
        '4'
    } else if d == 5 {
        '5'
    } else if d == 6 {
        '6'
    } else if d == 7 {
        '7'
    } else if d == 8 {
        '8'
    } else if d == 9 {
        '9'
    } else if d == 10 {
        'a'
    } else if d == 11 {
        'b'
    } else if d == 12 {
        'c'
    } else if d == 13 {
        'd'
    } else if d == 14 {
        'e'
    } else {
        'f'
    }
}

/// The value of a lower-case hexadecimal digit; `None` for any other character.
pub open spec fn digit_value(c: char) -> Option<nat> {
    if c == '0' {
        Some(0)
    } else if c == '1' {
        Some(1)
    } else if c == '2' {
        Some(2)
    } else if c == '3' {
        Some(3)
    } else if c == '4' {
        Some(4)
    } else if c == '5' {
        Some(5)
    } else if c == '6' {
        Some(6)
    } else if c == '7' {
        Some(7)
    } else if c == '8' {
        Some(8)
    } else if c == '9' {
        Some(9)
    } else if c == 'a' {
        Some(10)
    } else if c == 'b' {
        Some(11)
    } else if c == 'c' {
        Some(12)
    } else if c == 'd' {
        Some(13)
    } else if c == 'e' {
        Some(14)
    } else if c == 'f' {
        Some(15)
    } else {
        None
    }
}

/// `n` in lower-case hexadecimal, most significant digit first, without
/// leading zeros; zero is written as the single digit `0`.
pub open spec fn hex(n: nat) -> Seq<char>
    decreases n,
{
    if n < 16 {
        seq![digit_char(n)]
    } else {
        hex(n / 16).push(digit_char(n % 16))
    }
}

/// `n` in decimal, most significant digit first, without leading zeros; zero
/// is written as the single digit `0`.
pub open spec fn decimal(n: nat) -> Seq<char>
    decreases n,
{
    if n < 10 {
        seq![digit_char(n)]
    } else {
        decimal(n / 10).push(digit_char(n % 10))
    }
}

/// The number that a string of lower-case hexadecimal digits denotes; `None`
/// for the empty string and for a string with any other character.
pub open spec fn hex_value(s: Seq<char>) -> Option<nat>
    decreases s.len(),
{
    if s.len() == 0 {
        None
    } else if s.len() == 1 {
        digit_value(s[0])
    } else {
        match (hex_value(s.drop_last()), digit_value(s.last())) {
            (Some(high), Some(low)) => Some(16 * high + low),
            _ => None,
        }
    }
}

/// The two hexadecimal digits of one byte.
pub open spec fn hex_byte(b: u8) -> Seq<char> {
    seq![digit_char((b / 16) as nat), digit_char((b % 16) as nat)]
}

/// Every byte of `bytes` as two lower-case hexadecimal digits, in order.
pub open spec fn hex_bytes(bytes: Seq<u8>) -> Seq<char>
    decreases bytes.len(),
{
    if bytes.len() == 0 {
        Seq::empty()
    } else {
        hex_bytes(bytes.drop_last()) + hex_byte(bytes.last())
    }
}

/// Reading back what [`hex`] wrote gives the number again.
pub proof fn lemma_hex_value_of_hex(n: nat)
    ensures
        hex_value(hex(n)) == Some(n),
        hex(n).len() >= 1,
        n > 0 ==> hex(n)[0] != '0',
    decreases n,
{
    if n < 16 {
        assert(hex(n) =~= seq![digit_char(n)]);
    } else {
        lemma_hex_value_of_hex(n / 16);
        let high = hex(n / 16);
        assert(hex(n) == high.push(digit_char(n % 16)));
        assert(hex(n).drop_last() =~= high);
        assert(hex(n).last() == digit_char(n % 16));
        assert(16 * (n / 16) + n % 16 == n);
        assert(hex(n)[0] == high[0]);
    }
}

/// Every character of the hexadecimal form of a number is a digit.
pub proof fn lemma_hex_is_digits(n: nat)
    ensures
        forall|i: int| 0 <= i < hex(n).len() ==> digit_value(#[trigger] hex(n)[i]) is Some,
    decreases n,
{
    if n >= 16 {
        lemma_hex_is_digits(n / 16);
        let high = hex(n / 16);
        assert forall|i: int| 0 <= i < hex(n).len() implies digit_value(
            #[trigger] hex(n)[i],
        ) is Some by {
            if i < high.len() {
                assert(hex(n)[i] == high[i]);
            }
        }
    }
}

/// [`parse_hex`] reads back every number of 64 bits that [`to_hex`] wrote.
pub proof fn lemma_parsed_hex_of_hex(n: u64)
    ensures
        parsed_hex(hex(n as nat)) == Some(n),
{
    lemma_hex_value_of_hex(n as nat);
}

/// The text of one digit.
fn digit_str(d: u8) -> (s: &'static str)
    requires
        d < 16,
    ensures
        s@ == seq![digit_char(d as nat)],
{
    proof {
        reveal_strlit("0");
        reveal_strlit("1");
        reveal_strlit("2");
        reveal_strlit("3");
        reveal_strlit("4");
        reveal_strlit("5");
        reveal_strlit("6");
        reveal_strlit("7");
        reveal_strlit("8");
        reveal_strlit("9");
        reveal_strlit("a");
        reveal_strlit("b");
        reveal_strlit("c");
        reveal_strlit("d");
        reveal_strlit("e");
        reveal_strlit("f");
    }
    let s = if d == 0 {
        "0"
    } else if d == 1 {
        "1"
    } else if d == 2 {
        "2"
    } else if d == 3 {
        "3"
    } else if d == 4 {
        "4"
    } else if d == 5 {
        "5"
    } else if d == 6 {
        "6"
    } else if d == 7 {
        "7"
    } else if d == 8 {
        "8"
    } else if d == 9 {
        "9"
    } else if d == 10 {
        "a"
    } else if d == 11 {
        "b"
    } else if d == 12 {
        "c"
    } else if d == 13 {
        "d"
    } else if d == 14 {
        "e"
    } else {
        "f"
    };
    assert(s@ =~= seq![digit_char(d as nat)]);
    s
}

/// Appends `n` in lower-case hexadecimal to `out`.
pub fn push_hex(out: &mut String, n: u64)
    ensures
        final(out)@ == old(out)@ + hex(n as nat),
    decreases n,
{
    if n >= 16 {
        push_hex(out, n / 16);
    }
    let d: u64 = n % 16;
    out.append(digit_str(d as u8));
    proof {
        if n >= 16 {
            assert(hex(n as nat) == hex((n / 16) as nat).push(digit_char((n % 16) as nat)));
        }
        assert(final(out)@ =~= old(out)@ + hex(n as nat));
    }
}

/// Appends `n` in decimal to `out`.
pub fn push_decimal(out: &mut String, n: u64)
    ensures
        final(out)@ == old(out)@ + decimal(n as nat),
    decreases n,
{
    if n >= 10 {
        push_decimal(out, n / 10);
    }
    let d: u64 = n % 10;
    out.append(digit_str(d as u8));
    proof {
        if n >= 10 {
            assert(decimal(n as nat) == decimal((n / 10) as nat).push(
                digit_char((n % 10) as nat),
            ));
        }
        assert(final(out)@ =~= old(out)@ + decimal(n as nat));
    }
}

/// `n` in lower-case hexadecimal, as `{:x}` prints it.
pub fn to_hex(n: u64) -> (s: String)
    ensures
        s@ == hex(n as nat),
{
    let mut s = String::new();
    push_hex(&mut s, n);
    assert(s@ =~= hex(n as nat));
    s
}

/// `n` in decimal.
pub fn to_decimal(n: u64) -> (s: String)
    ensures
        s@ == decimal(n as nat),
{
    let mut s = String::new();
    push_decimal(&mut s, n);
    assert(s@ =~= decimal(n as nat));
    s
}

/// Appends the two digits of every byte of `bytes` to `out`.
pub fn push_hex_bytes(out: &mut String, bytes: &[u8])
    ensures
        final(out)@ == old(out)@ + hex_bytes(bytes@),
{
    let ghost start = out@;
    let mut i: usize = 0;
    assert(bytes@.take(0) =~= Seq::<u8>::empty());
    assert(out@ =~= start + hex_bytes(bytes@.take(0)));
    while i < bytes.len()
        invariant
            i <= bytes.len(),
            out@ == start + hex_bytes(bytes@.take(i as int)),
        decreases bytes.len() - i,
    {
        let b: u8 = bytes[i];
        let ghost before = out@;
        out.append(digit_str(b / 16));
        out.append(digit_str(b % 16));
        proof {
            let next = bytes@.take(i as int + 1);
            assert(next.drop_last() =~= bytes@.take(i as int));
            assert(next.last() == b);
            assert(hex_bytes(next) == hex_bytes(bytes@.take(i as int)) + hex_byte(b));
            assert(out@ =~= start + hex_bytes(next));
        }
        i += 1;
    }
    assert(bytes@.take(i as int) =~= bytes@);
}

/// Every byte of `bytes` as two lower-case hexadecimal digits.
pub fn to_hex_bytes(bytes: &[u8]) -> (s: String)
    ensures
        s@ == hex_bytes(bytes@),
{
    let mut s = String::new();
    push_hex_bytes(&mut s, bytes);
    assert(s@ =~= hex_bytes(bytes@));
    s
}

/// The value of one character as a lower-case hexadecimal digit.
fn digit_of(c: char) -> (r: Option<u8>)
    ensures
        match r {
            Some(d) => d < 16 && digit_value(c) == Some(d as nat),
            None => digit_value(c) is None,
        },
{
    if c == '0' {
        Some(0)
    } else if c == '1' {
        Some(1)
    } else if c == '2' {
        Some(2)
    } else if c == '3' {
        Some(3)
    } else if c == '4' {
        Some(4)
    } else if c == '5' {
        Some(5)
    } else if c == '6' {
        Some(6)
    } else if c == '7' {
        Some(7)
    } else if c == '8' {
        Some(8)
    } else if c == '9' {
        Some(9)
    } else if c == 'a' {
        Some(10)
    } else if c == 'b' {
        Some(11)
    } else if c == 'c' {
        Some(12)
    } else if c == 'd' {
        Some(13)
    } else if c == 'e' {
        Some(14)
    } else if c == 'f' {
        Some(15)
    } else {
        None
    }
}

/// What [`parse_hex`] reads from `s`: the number that `s` denotes, provided
/// that `s` is made of lower-case hexadecimal digits only, has no leading
/// zero unless it is `0` itself, and denotes a number that fits in 64 bits.
pub open spec fn parsed_hex(s: Seq<char>) -> Option<u64> {
    match hex_value(s) {
        Some(v) => if v <= u64::MAX && (s.len() == 1 || s[0] != '0') {
            Some(v as u64)
        } else {
            None
        },
        None => None,
    }
}

/// Reads a number written by [`to_hex`].
pub fn parse_hex(s: &str) -> (r: Option<u64>)
    ensures
        r == parsed_hex(s@),
{
    let n = s.unicode_len();
    if n == 0 || n > 16 {
        proof {
            if n > 16 {
                lemma_long_hex_overflows(s@);
            }
        }
        return None;
    }
    let mut value: u64 = 0;
    let mut i: usize = 0;
    while i < n
        invariant
            n == s@.len(),
            1 <= n <= 16,
            i <= n,
            i > 0 ==> hex_value(s@.take(i as int)) == Some(value as nat),
            i == 0 ==> value == 0,
            i > 0 && n > 1 ==> s@[0] != '0',
            value < pow16(i as nat),
        decreases n - i,
    {
        let c = s.get_char(i);
        let ghost prefix = s@.take(i as int);
        let ghost next = s@.take(i as int + 1);
        proof {
            assert(next.drop_last() =~= prefix);
            assert(next.last() == c);
            lemma_hex_value_prefix(s@, i as int + 1);
        }
        match digit_of(c) {
            Some(d) => {
                if i == 0 && n > 1 && d == 0 {
                    proof {
                        assert(s@[0] == '0');
                    }
                    return None;
                }
                proof {
                    reveal_with_fuel(pow16, 2);
                    assert(pow16(i as nat + 1) == 16 * pow16(i as nat));
                    lemma_pow16_bound(i as nat + 1);
                }
                value = value * 16 + d as u64;
                proof {
                    if i == 0 {
                        assert(next.len() == 1);
                        assert(next[0] == c);
                    }
                }
            },
            None => {
                proof {
                    if i == 0 {
                        assert(next.len() == 1);
                        assert(next[0] == c);
                    }
                    assert(hex_value(next) is None);
                    assert(hex_value(s@) is None);
                }
                return None;
            },
        }
        i += 1;
    }
    proof {
        assert(s@.take(n as int) =~= s@);
    }
    Some(value)
}

/// Sixteen to the power `k`.
spec fn pow16(k: nat) -> nat
    decreases k,
{
    if k == 0 {
        1
    } else {
        16 * pow16((k - 1) as nat)
    }
}

/// Up to sixteen hexadecimal digits fit in 64 bits.
proof fn lemma_pow16_bound(k: nat)
    requires
        k <= 16,
    ensures
        pow16(k) <= 0x1_0000_0000_0000_0000,
{
    lemma_pow16_monotonic(k, 16);
    assert(pow16(16) == 0x1_0000_0000_0000_0000) by {
        reveal_with_fuel(pow16, 17);
    }
}

/// If a string denotes a number, so does each of its non-empty prefixes; put
/// the other way round, a prefix that denotes none spoils the whole.
proof fn lemma_hex_value_prefix(s: Seq<char>, k: int)
    requires
        1 <= k <= s.len(),
    ensures
        hex_value(s.take(k)) is None ==> hex_value(s) is None,
    decreases s.len(),
{
    if k < s.len() {
        assert(s.drop_last().take(k) =~= s.take(k));
        lemma_hex_value_prefix(s.drop_last(), k);
    } else {
        assert(s.take(k) =~= s);
    }
}

/// The value of a string without a leading zero is at least sixteen to the
/// power of its length less one.
proof fn lemma_hex_value_lower_bound(s: Seq<char>)
    requires
        s.len() >= 1,
        hex_value(s) is Some,
        s[0] != '0',
    ensures
        hex_value(s)->0 >= pow16((s.len() - 1) as nat),
    decreases s.len(),
{
    if s.len() > 1 {
        assert(s.drop_last()[0] == s[0]);
        lemma_hex_value_lower_bound(s.drop_last());
    }
}

/// A string of more than sixteen characters is no number of 64 bits written
/// without a leading zero.
proof fn lemma_long_hex_overflows(s: Seq<char>)
    requires
        s.len() > 16,
    ensures
        parsed_hex(s) is None,
{
    if hex_value(s) is Some && s[0] != '0' {
        lemma_hex_value_lower_bound(s);
        lemma_pow16_monotonic(16, (s.len() - 1) as nat);
        assert(pow16(16) == 0x1_0000_0000_0000_0000) by {
            reveal_with_fuel(pow16, 17);
        }
    }
}

/// Sixteen to a larger power is no smaller.
proof fn lemma_pow16_monotonic(a: nat, b: nat)
    requires
        a <= b,
    ensures
        pow16(a) <= pow16(b),
    decreases b,
{
    if a < b {
        lemma_pow16_monotonic(a, (b - 1) as nat);
    }
}

/// The value of a decimal digit; `None` for any other character.
pub open spec fn decimal_digit(c: char) -> Option<nat> {
    match digit_value(c) {
        Some(d) => if d < 10 {
            Some(d)
        } else {
            None
        },
        None => None,
    }
}

/// The number that a string of decimal digits denotes; `None` for the empty
/// string and for a string with any other character.
pub open spec fn decimal_value(s: Seq<char>) -> Option<nat>
    decreases s.len(),
{
    if s.len() == 0 {
        None
    } else if s.len() == 1 {
        decimal_digit(s[0])
    } else {
        match (decimal_value(s.drop_last()), decimal_digit(s.last())) {
            (Some(high), Some(low)) => Some(10 * high + low),
            _ => None,
        }
    }
}

/// The digits of a number that may be written with a plus sign before it:
/// `s` without its first character where that is a plus sign, `s` otherwise.
pub open spec fn unsigned_digits(s: Seq<char>) -> Seq<char> {
    if s.len() > 0 && s[0] == '+' {
        s.skip(1)
    } else {
        s
    }
}

/// What [`parse_u32`] reads from `s`: the number that `s` denotes, provided
/// that `s` is made of decimal digits, with or without one plus sign before
/// them, and denotes a number that fits in 32 bits.
pub open spec fn parsed_u32(s: Seq<char>) -> Option<u32> {
    match decimal_value(unsigned_digits(s)) {
        Some(v) => if v <= u32::MAX {
            Some(v as u32)
        } else {
            None
        },
        None => None,
    }
}

/// A prefix that denotes no number spoils the whole, and a prefix that
/// denotes one denotes no more than the whole.
proof fn lemma_decimal_value_prefix(s: Seq<char>, k: int)
    requires
        1 <= k <= s.len(),
    ensures
        decimal_value(s.take(k)) is None ==> decimal_value(s) is None,
        decimal_value(s) is Some ==> decimal_value(s.take(k))->0 <= decimal_value(s)->0,
    decreases s.len(),
{
    if k < s.len() {
        assert(s.drop_last().take(k) =~= s.take(k));
        lemma_decimal_value_prefix(s.drop_last(), k);
    } else {
        assert(s.take(k) =~= s);
    }
}

/// Reads a number of 32 bits written in decimal digits, with or without one
/// plus sign before them, as `str::parse::<u32>` reads it.
pub fn parse_u32(s: &str) -> (r: Option<u32>)
    ensures
        r == parsed_u32(s@),
{
    let n = s.unicode_len();
    if n == 0 {
        return None;
    }
    let start: usize = if s.get_char(0) == '+' {
        1
    } else {
        0
    };
    let ghost digits = unsigned_digits(s@);
    if start == n {
        return None;
    }
    let mut value: u64 = 0;
    let mut i: usize = start;
    while i < n
        invariant
            n == s@.len(),
            start <= i <= n,
            start < n,
            digits == unsigned_digits(s@),
            digits.len() == n - start,
            forall|j: int| 0 <= j < digits.len() ==> digits[j] == s@[j + start],
            i > start ==> decimal_value(digits.take(i - start)) == Some(value as nat),
            i == start ==> value == 0,
            value <= u32::MAX,
        decreases n - i,
    {
        let c = s.get_char(i);
        let ghost read = i - start;
        let ghost prefix = digits.take(read);
        let ghost next = digits.take(read + 1);
        proof {
            assert(next.drop_last() =~= prefix);
            assert(next.last() == digits[read]);
            assert(next.last() == c);
            lemma_decimal_value_prefix(digits, read + 1);
            if i == start {
                assert(next.len() == 1);
                assert(next[0] == c);
            }
        }
        match digit_of(c) {
            Some(d) => {
                if d >= 10 {
                    proof {
                        assert(decimal_value(next) is None);
                    }
                    return None;
                }
                value = value * 10 + d as u64;
                if value > 0xffff_ffff {
                    return None;
                }
            },
            None => {
                proof {
                    assert(decimal_value(next) is None);
                }
                return None;
            },
        }
        i += 1;
    }
    proof {
        assert(digits.take(n - start) =~= digits);
    }
    Some(value as u32)
}

/// A text with a number of its own: the number in hexadecimal, a hyphen, and
/// the text. Blob references and upload identifiers are made so, from a
/// counter that is never turned back, and therefore never occur twice.
pub open spec fn numbered(number: nat, text: Seq<char>) -> Seq<char> {
    hex(number) + seq!['-'] + text
}

/// The number of characters of `text` that stand before its first hyphen.
pub open spec fn number_width(text: Seq<char>) -> nat
    decreases text.len(),
{
    if text.len() == 0 || text[0] == '-' {
        0
    } else {
        1 + number_width(text.drop_first())
    }
}

/// The number that a numbered text was made with: the number written before
/// its first hyphen.
pub open spec fn number_of(text: Seq<char>) -> Option<nat> {
    hex_value(text.take(number_width(text) as int))
}

/// Where a text without hyphens is followed by a hyphen, the first hyphen
/// stands right after it.
proof fn lemma_number_width(head: Seq<char>, tail: Seq<char>)
    requires
        forall|i: int| 0 <= i < head.len() ==> head[i] != '-',
    ensures
        number_width(head + seq!['-'] + tail) == head.len(),
    decreases head.len(),
{
    let whole = head + seq!['-'] + tail;
    if head.len() == 0 {
        assert(whole[0] == '-');
    } else {
        assert(whole[0] == head[0]);
        assert(whole.drop_first() =~= head.drop_first() + seq!['-'] + tail);
        assert forall|i: int| 0 <= i < head.drop_first().len() implies head.drop_first()[i]
            != '-' by {
            assert(head.drop_first()[i] == head[i + 1]);
        }
        lemma_number_width(head.drop_first(), tail);
    }
}

/// A numbered text tells the number that it was made with, whatever the text
/// is.
pub proof fn lemma_number_of_numbered(number: nat, text: Seq<char>)
    ensures
        number_of(numbered(number, text)) == Some(number),
{
    lemma_hex_is_digits(number);
    lemma_hex_value_of_hex(number);
    lemma_number_width(hex(number), text);
    assert(numbered(number, text).take(hex(number).len() as int) =~= hex(number));
}

/// Texts that were numbered differently differ.
pub proof fn lemma_numbered_texts_differ(a: nat, x: Seq<char>, b: nat, y: Seq<char>)
    requires
        a != b,
    ensures
        numbered(a, x) != numbered(b, y),
{
    lemma_number_of_numbered(a, x);
    lemma_number_of_numbered(b, y);
}

/// Writes `text` with the number `number`.
pub fn number_text(number: u64, text: &str) -> (out: String)
    ensures
        out@ == numbered(number as nat, text@),
{
    let mut out = String::new();
    push_hex(&mut out, number);
    out.append("-");
    out.append(text);
    proof {
        reveal_strlit("-");
        assert("-"@ =~= seq!['-']);
        assert(out@ =~= numbered(number as nat, text@));
    }
    out
}

} // verus!
