//! Text helpers: ASCII strings, decimal and hexadecimal numerals, labels
//! separated by dots.

use vstd::arithmetic::power;
use vstd::prelude::*;
use vstd::utf8;

verus! {

/// The characters that a string of ASCII bytes denotes.
pub open spec fn ascii_chars(bytes: Seq<u8>) -> Seq<char> {
    Seq::new(bytes.len(), |i: int| bytes[i] as char)
}

/// Whether every byte is an ASCII code.
pub open spec fn all_ascii(bytes: Seq<u8>) -> bool {
    forall|i: int| 0 <= i < bytes.len() ==> #[trigger] bytes[i] < 128
}

/// The UTF-8 form of ASCII characters is the bytes themselves.
pub proof fn lemma_ascii_encoding(bytes: Seq<u8>)
    requires
        all_ascii(bytes),
    ensures
        utf8::encode_utf8(ascii_chars(bytes)) == bytes,
        utf8::is_ascii_chars(ascii_chars(bytes)),
{
    let chars = ascii_chars(bytes);
    assert forall|i: int| 0 <= i < chars.len() implies '\0' <= #[trigger] chars[i] <= '\u{7f}' by {
        assert(bytes[i] < 128);
    }
    utf8::is_ascii_chars_encode_utf8(chars);
    assert(utf8::encode_utf8(chars) =~= bytes) by {
        assert forall|i: int| 0 <= i < bytes.len() implies utf8::encode_utf8(chars)[i] == bytes[i] by {
            assert(bytes[i] < 128);
            assert(chars[i] as u8 == bytes[i]);
        }
    }
}

/// Texts with the same UTF-8 form are the same text.
pub proof fn lemma_utf8_injective(a: Seq<char>, b: Seq<char>)
    requires
        utf8::encode_utf8(a) == utf8::encode_utf8(b),
    ensures
        a == b,
{
    utf8::encode_utf8_decode_utf8(a);
    utf8::encode_utf8_decode_utf8(b);
}

/// The UTF-8 form of joined texts is the joined UTF-8 forms.
pub proof fn lemma_utf8_concat(a: Seq<char>, b: Seq<char>)
    ensures
        utf8::encode_utf8(a + b) == utf8::encode_utf8(a) + utf8::encode_utf8(b),
    decreases a.len(),
{
    if a.len() == 0 {
        assert(a + b =~= b);
        assert(utf8::encode_utf8(a) + utf8::encode_utf8(b) =~= utf8::encode_utf8(b));
    } else {
        lemma_utf8_concat(a.drop_first(), b);
        assert((a + b).drop_first() =~= a.drop_first() + b);
        assert(utf8::encode_utf8(a + b) =~= utf8::encode_utf8(a) + utf8::encode_utf8(b));
    }
}

/// Calls `String::from_utf8`, which succeeds exactly on well-formed UTF-8 and
/// then keeps the bytes as they are.
#[verifier::external_body]
fn text_from_utf8(bytes: Vec<u8>) -> (text: Option<String>)
    ensures
        text is Some <==> utf8::valid_utf8(bytes@),
        text matches Some(t) ==> utf8::encode_utf8(t@) == bytes@,
{
    String::from_utf8(bytes).ok()
}

/// The text that a string of ASCII bytes denotes.
pub fn ascii_string(bytes: Vec<u8>) -> (text: String)
    requires
        all_ascii(bytes@),
    ensures
        text@ == ascii_chars(bytes@),
{
    let ghost content = bytes@;
    proof {
        lemma_ascii_encoding(content);
        utf8::encode_utf8_valid_utf8(ascii_chars(content));
    }
    let text: Option<String> = text_from_utf8(bytes);
    match text {
        Some(t) => {
            proof {
                lemma_utf8_injective(t@, ascii_chars(content));
            }
            t
        },
        None => String::new(),
    }
}

/// Whether two texts are equal.
pub fn same_text(a: &str, b: &str) -> (same: bool)
    ensures
        same == (a@ == b@),
{
    let same: bool = crate::wire::same_bytes(a.as_bytes(), b.as_bytes());
    proof {
        if same {
            lemma_utf8_injective(a@, b@);
        }
    }
    same
}

/// The character of the decimal or lower-case hexadecimal digit `d`.
pub open spec fn digit_char(d: nat) -> char {
    if d < 10 {
        (48 + d) as char
    } else {
        (87 + d) as char
    }
}

/// `value` in base `base`, without leading zeros.
pub open spec fn numeral(value: nat, base: nat) -> Seq<char>
    decreases value,
{
    if base < 2 || value < base {
        seq![digit_char(value)]
    } else {
        proof {
            assert(value / base < value) by (nonlinear_arith)
                requires
                    2 <= base <= value,
            ;
        }
        numeral(value / base, base).push(digit_char(value % base))
    }
}

/// `value` in decimal.
pub open spec fn decimal_text(value: nat) -> Seq<char> {
    numeral(value, 10)
}

/// `value` in lower-case hexadecimal behind `0x`.
pub open spec fn prefixed_hex_text(value: nat) -> Seq<char> {
    "0x"@ + numeral(value, 16)
}

/// The ASCII code of a digit.
fn digit_byte(d: u8) -> (byte: u8)
    requires
        d < 16,
    ensures
        byte < 128,
        byte as char == digit_char(d as nat),
{
    if d < 10 {
        48 + d
    } else {
        87 + d
    }
}

/// The ASCII bytes of `value` in base `base`.
fn numeral_bytes(value: u64, base: u64) -> (bytes: Vec<u8>)
    requires
        2 <= base <= 16,
    ensures
        all_ascii(bytes@),
        ascii_chars(bytes@) == numeral(value as nat, base as nat),
    decreases value,
{
    if value < base {
        let mut bytes: Vec<u8> = Vec::new();
        bytes.push(digit_byte(value as u8));
        assert(ascii_chars(bytes@) =~= numeral(value as nat, base as nat));
        bytes
    } else {
        assert(value / base < value && value % base < base) by (nonlinear_arith)
            requires
                2 <= base <= value,
        ;
        let mut bytes: Vec<u8> = numeral_bytes(value / base, base);
        let ghost head = bytes@;
        bytes.push(digit_byte((value % base) as u8));
        proof {
            assert(ascii_chars(bytes@) =~= ascii_chars(head).push(
                digit_char((value % base) as nat),
            ));
        }
        bytes
    }
}

/// `value` in decimal.
pub fn decimal(value: u64) -> (text: String)
    ensures
        text@ == decimal_text(value as nat),
{
    ascii_string(numeral_bytes(value, 10))
}

/// `value` in lower-case hexadecimal behind `0x`.
pub fn prefixed_hex(value: u64) -> (text: String)
    ensures
        text@ == prefixed_hex_text(value as nat),
{
    let digits: String = ascii_string(numeral_bytes(value, 16));
    let mut text: String = "0x".to_owned();
    text.append(digits.as_str());
    text
}

/// Two lower-case hexadecimal digits for each byte.
pub open spec fn hex_text(bytes: Seq<u8>) -> Seq<char>
    decreases bytes.len(),
{
    if bytes.len() == 0 {
        Seq::<char>::empty()
    } else {
        hex_text(bytes.drop_last()).push(digit_char((bytes.last() / 16) as nat)).push(
            digit_char((bytes.last() % 16) as nat),
        )
    }
}

/// Writes each byte as two lower-case hexadecimal digits.
pub fn write_hex(bytes: &[u8]) -> (text: String)
    ensures
        text@ == hex_text(bytes@),
{
    let mut out: Vec<u8> = Vec::new();
    let mut i: usize = 0;
    assert(ascii_chars(out@) =~= hex_text(bytes@.take(0)));
    while i < bytes.len()
        invariant
            i <= bytes@.len(),
            all_ascii(out@),
            ascii_chars(out@) == hex_text(bytes@.take(i as int)),
        decreases bytes@.len() - i,
    {
        let ghost head = out@;
        let byte: u8 = bytes[i];
        out.push(digit_byte(byte / 16));
        out.push(digit_byte(byte % 16));
        proof {
            assert(bytes@.take(i + 1).drop_last() =~= bytes@.take(i as int));
            assert(ascii_chars(out@) =~= ascii_chars(head).push(
                digit_char((byte / 16) as nat),
            ).push(digit_char((byte % 16) as nat)));
        }
        i = i + 1;
    }
    assert(bytes@.take(i as int) =~= bytes@);
    ascii_string(out)
}

/// Whether every byte is an ASCII decimal digit.
pub open spec fn all_digits(bytes: Seq<u8>) -> bool {
    forall|i: int| 0 <= i < bytes.len() ==> 48 <= #[trigger] bytes[i] <= 57
}

/// The number that a string of decimal digits denotes.
pub open spec fn decimal_value(digits: Seq<u8>) -> nat
    decreases digits.len(),
{
    if digits.len() == 0 {
        0
    } else {
        10 * decimal_value(digits.drop_last()) + (digits.last() - 48) as nat
    }
}

/// A prefix of a digit string denotes no more than the whole.
proof fn lemma_decimal_prefix(digits: Seq<u8>, n: int)
    requires
        all_digits(digits),
        0 <= n <= digits.len(),
    ensures
        decimal_value(digits.take(n)) <= decimal_value(digits),
    decreases digits.len() - n,
{
    if n == digits.len() {
        assert(digits.take(n) =~= digits);
    } else {
        lemma_decimal_prefix(digits, n + 1);
        assert(digits.take(n + 1).drop_last() =~= digits.take(n));
        assert(48 <= digits[n]);
    }
}

/// Whether every byte is an ASCII decimal digit.
pub fn is_all_digits(bytes: &[u8]) -> (all: bool)
    ensures
        all == all_digits(bytes@),
{
    let mut i: usize = 0;
    while i < bytes.len()
        invariant
            i <= bytes@.len(),
            forall|j: int| 0 <= j < i ==> 48 <= #[trigger] bytes@[j] <= 57,
        decreases bytes@.len() - i,
    {
        if bytes[i] < 48 || bytes[i] > 57 {
            return false;
        }
        i = i + 1;
    }
    true
}

/// Reads a string of decimal digits, unless its value exceeds `u64`.
pub fn parse_decimal(digits: &[u8]) -> (value: Option<u64>)
    requires
        all_digits(digits@),
    ensures
        match value {
            Some(v) => v as nat == decimal_value(digits@),
            None => decimal_value(digits@) > u64::MAX,
        },
{
    let mut value: u64 = 0;
    let mut i: usize = 0;
    while i < digits.len()
        invariant
            i <= digits@.len(),
            all_digits(digits@),
            value as nat == decimal_value(digits@.take(i as int)),
        decreases digits@.len() - i,
    {
        let digit: u64 = (digits[i] - 48) as u64;
        proof {
            assert(digits@.take(i + 1).drop_last() =~= digits@.take(i as int));
            lemma_decimal_prefix(digits@, i + 1);
        }
        if value > (u64::MAX - digit) / 10 {
            return None;
        }
        value = 10 * value + digit;
        i = i + 1;
    }
    assert(digits@.take(i as int) =~= digits@);
    Some(value)
}

/// The ASCII bytes of ASCII text.
pub open spec fn ascii_bytes(chars: Seq<char>) -> Seq<u8> {
    Seq::new(chars.len(), |i: int| chars[i] as u8)
}

/// Reading a decimal numeral gives back the number it was written from.
pub proof fn lemma_decimal_round_trip(value: nat)
    ensures
        decimal_value(ascii_bytes(decimal_text(value))) == value,
        all_digits(ascii_bytes(decimal_text(value))),
        decimal_text(value).len() >= 1,
        decimal_text(value).len() > 1 ==> decimal_text(value)[0] != '0',
        decimal_text(value).len() == 1 ==> value < 10,
    decreases value,
{
    let bytes = ascii_bytes(decimal_text(value));
    if value < 10 {
        assert(bytes =~= seq![(48 + value) as u8]);
        assert(bytes.drop_last() =~= Seq::<u8>::empty());
        assert(decimal_value(Seq::<u8>::empty()) == 0);
    } else {
        lemma_decimal_round_trip(value / 10);
        assert(bytes.drop_last() =~= ascii_bytes(decimal_text(value / 10)));
        assert(bytes.last() == 48 + value % 10);
        assert forall|i: int| 0 <= i < bytes.len() implies 48 <= #[trigger] bytes[i] <= 57 by {
            if i < bytes.len() - 1 {
                assert(bytes[i] == ascii_bytes(decimal_text(value / 10))[i]);
            }
        }
        assert(decimal_text(value)[0] == decimal_text(value / 10)[0]);
        if decimal_text(value / 10).len() == 1 {
            assert(value / 10 >= 1);
            assert(decimal_text(value / 10)[0] == digit_char(value / 10));
        }
    }
}

/// Decimal numerals are digits.
pub proof fn lemma_decimal_digits(value: nat)
    ensures
        forall|i: int|
            0 <= i < decimal_text(value).len() ==> '0' <= #[trigger] decimal_text(value)[i] <= '9',
    decreases value,
{
    let number = decimal_text(value);
    if value >= 10 {
        lemma_decimal_digits(value / 10);
        assert forall|i: int| 0 <= i < number.len() implies '0' <= #[trigger] number[i] <= '9' by {
            if i < number.len() - 1 {
                assert(number[i] == decimal_text(value / 10)[i]);
            }
        }
    }
}

/// A number below the `n`th power of ten has at most `n` decimal digits.
pub proof fn lemma_decimal_len(value: nat, n: nat)
    requires
        n > 0,
        value < power::pow(10, n),
    ensures
        decimal_text(value).len() <= n,
    decreases n,
{
    reveal(power::pow);
    if value >= 10 {
        assert(power::pow(10, n) == 10 * power::pow(10, (n - 1) as nat));
        if n == 1 {
            assert(power::pow(10, 0) == 1);
        } else {
            lemma_decimal_len(value / 10, (n - 1) as nat);
        }
    }
}

/// A numeral without leading zeros is the one that its number is written as.
pub proof fn lemma_decimal_is_unique(digits: Seq<u8>)
    requires
        digits.len() >= 1,
        all_digits(digits),
        digits.len() > 1 ==> digits[0] != 48,
    ensures
        ascii_bytes(decimal_text(decimal_value(digits))) == digits,
        digits[0] != 48 ==> decimal_value(digits) >= 1,
    decreases digits.len(),
{
    let value = decimal_value(digits);
    let head = digits.drop_last();
    let last = digits.last();
    assert(48 <= digits[digits.len() - 1] <= 57);
    if digits.len() == 1 {
        assert(decimal_value(head) == 0);
        assert(ascii_bytes(decimal_text(value)) =~= digits);
    } else {
        assert forall|i: int| 0 <= i < head.len() implies 48 <= #[trigger] head[i] <= 57 by {
            assert(head[i] == digits[i]);
        }
        lemma_decimal_is_unique(head);
        let before = decimal_value(head);
        assert(before >= 1);
        assert(value == 10 * before + (last - 48));
        assert(value / 10 == before && value % 10 == last - 48);
        assert(ascii_bytes(decimal_text(value)) =~= ascii_bytes(decimal_text(before)).push(last));
        assert(head.push(last) =~= digits);
    }
}

/// The digits in order.
pub proof fn lemma_digits_in_order(d: nat)
    requires
        d < 16,
    ensures
        "0123456789abcdef"@.len() == 16,
        digit_char(d) == "0123456789abcdef"@[d as int],
{
    reveal_strlit("0123456789abcdef");
}

/// Each byte is written as its two hexadecimal digits, the higher one first.
pub proof fn lemma_hex_digit_by_digit(bytes: Seq<u8>, i: int)
    ensures
        hex_text(bytes).len() == 2 * bytes.len(),
        0 <= i < bytes.len() ==> hex_text(bytes)[2 * i] == "0123456789abcdef"@[(bytes[i] / 16) as int]
            && hex_text(bytes)[2 * i + 1] == "0123456789abcdef"@[(bytes[i] % 16) as int],
    decreases bytes.len(),
{
    if bytes.len() > 0 {
        lemma_hex_digit_by_digit(bytes.drop_last(), i);
        lemma_digits_in_order((bytes.last() / 16) as nat);
        lemma_digits_in_order((bytes.last() % 16) as nat);
    }
}

/// A numeral ends in the remainder by its base, behind the numeral of the
/// quotient.
pub proof fn lemma_numeral_digit_by_digit(value: nat, base: nat)
    requires
        2 <= base <= 16,
    ensures
        numeral(value, base).last() == "0123456789abcdef"@[(value % base) as int],
        value < base ==> numeral(value, base).len() == 1,
        value >= base ==> numeral(value, base).drop_last() == numeral(value / base, base),
{
    assert(value % base < base && (value < base ==> value % base == value)) by (nonlinear_arith)
        requires
            base >= 2,
    ;
    lemma_digits_in_order(value % base);
    if value >= base {
        assert(numeral(value, base).drop_last() =~= numeral(value / base, base));
    }
}

/// Putting bytes in lower case changes the letters `A` to `Z` and nothing else.
pub proof fn lemma_lower_case(bytes: Seq<u8>, i: int)
    requires
        0 <= i < bytes.len(),
    ensures
        lower_bytes(bytes).len() == bytes.len(),
        65 <= bytes[i] <= 90 ==> lower_bytes(bytes)[i] == bytes[i] + 32,
        !(65 <= bytes[i] <= 90) ==> lower_bytes(bytes)[i] == bytes[i],
{
}

/// An ASCII letter in lower case; any other byte as it is.
pub open spec fn lower_byte(byte: u8) -> u8 {
    if 65 <= byte <= 90 {
        (byte + 32) as u8
    } else {
        byte
    }
}

/// ASCII letters in lower case.
pub open spec fn lower_bytes(bytes: Seq<u8>) -> Seq<u8> {
    Seq::new(bytes.len(), |i: int| lower_byte(bytes[i]))
}

/// Puts ASCII letters in lower case.
pub fn to_lower(bytes: &[u8]) -> (out: Vec<u8>)
    ensures
        out@ == lower_bytes(bytes@),
{
    let mut out: Vec<u8> = Vec::new();
    let mut i: usize = 0;
    while i < bytes.len()
        invariant
            i <= bytes@.len(),
            out@.len() == i,
            forall|j: int| 0 <= j < i ==> out@[j] == lower_byte(bytes@[j]),
        decreases bytes@.len() - i,
    {
        let byte: u8 = bytes[i];
        if 65 <= byte && byte <= 90 {
            out.push(byte + 32);
        } else {
            out.push(byte);
        }
        i = i + 1;
    }
    assert(out@ =~= lower_bytes(bytes@));
    out
}

/// The bytes before the first dot, or all bytes if there is none.
pub open spec fn first_label(bytes: Seq<u8>) -> Seq<u8>
    decreases bytes.len(),
{
    if bytes.len() == 0 || bytes[0] == 46 {
        Seq::<u8>::empty()
    } else {
        seq![bytes[0]] + first_label(bytes.skip(1))
    }
}

/// A dot-free stretch that ends at a dot, or at the end, is the first label.
pub proof fn lemma_first_label(bytes: Seq<u8>, n: int)
    requires
        0 <= n <= bytes.len(),
        forall|i: int| 0 <= i < n ==> #[trigger] bytes[i] != 46,
        n == bytes.len() || bytes[n] == 46,
    ensures
        first_label(bytes) == bytes.take(n),
    decreases n,
{
    if n == 0 {
        assert(bytes.take(0) =~= Seq::<u8>::empty());
    } else {
        let rest = bytes.skip(1);
        assert forall|i: int| 0 <= i < n - 1 implies #[trigger] rest[i] != 46 by {
            assert(bytes[i + 1] != 46);
        }
        lemma_first_label(rest, n - 1);
        assert(bytes.take(n) =~= seq![bytes[0]] + rest.take(n - 1));
    }
}

/// The position of the first dot at or after `from`, or the length.
pub fn label_end(bytes: &[u8], from: usize) -> (end: usize)
    requires
        from <= bytes.len(),
    ensures
        from <= end <= bytes@.len(),
        forall|i: int| from <= i < end ==> #[trigger] bytes@[i] != 46,
        end == bytes@.len() || bytes@[end as int] == 46,
{
    let mut end: usize = from;
    while end < bytes.len() && bytes[end] != 46
        invariant
            from <= end <= bytes@.len(),
            forall|i: int| from <= i < end ==> #[trigger] bytes@[i] != 46,
        decreases bytes@.len() - end,
    {
        end = end + 1;
    }
    end
}

} // verus!
