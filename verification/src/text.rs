//! Decimal numbers and ASCII text.
use vstd::prelude::*;
use vstd::utf8::{
    decode_utf8, encode_utf8, encode_utf8_decode_utf8, encode_utf8_valid_utf8, is_ascii_chars,
    is_ascii_chars_encode_utf8, valid_utf8,
};

verus! {

/// The ASCII code of the decimal digit `d`.
pub open spec fn digit_byte(d: nat) -> u8 {
    (48 + d) as u8
}

/// Whether `b` is the ASCII code of a decimal digit.
pub open spec fn is_digit_byte(b: u8) -> bool {
    48 <= b <= 57
}

/// The shortest decimal representation of `n`, in ASCII.
pub open spec fn decimal_bytes(n: nat) -> Seq<u8>
    decreases n,
{
    if n < 10 {
        seq![digit_byte(n)]
    } else {
        decimal_bytes(n / 10).push(digit_byte(n % 10))
    }
}

/// The value of a sequence of ASCII decimal digits, most significant first.
pub open spec fn digits_value(s: Seq<u8>) -> nat
    decreases s.len(),
{
    if s.len() == 0 {
        0
    } else {
        digits_value(s.drop_last()) * 10 + (s.last() - 48) as nat
    }
}

/// `s` preceded by as many `'0'` as make it `width` long.
pub open spec fn zero_padded(s: Seq<u8>, width: nat) -> Seq<u8> {
    if s.len() < width {
        Seq::new((width - s.len()) as nat, |i: int| 48u8) + s
    } else {
        s
    }
}

/// The characters of an ASCII byte sequence.
pub open spec fn ascii_chars(b: Seq<u8>) -> Seq<char> {
    b.map_values(|x: u8| x as char)
}

/// Whether every byte is below 128.
pub open spec fn is_ascii_bytes(b: Seq<u8>) -> bool {
    forall|i: int| 0 <= i < b.len() ==> b[i] < 128
}

/// The decimal numbers of `slots`, separated by commas.
pub open spec fn csv_bytes(slots: Seq<u32>) -> Seq<u8>
    decreases slots.len(),
{
    if slots.len() == 0 {
        Seq::empty()
    } else if slots.len() == 1 {
        decimal_bytes(slots[0] as nat)
    } else {
        csv_bytes(slots.drop_last()).push(44u8) + decimal_bytes(slots.last() as nat)
    }
}

/// A decimal representation is one or more ASCII digits.
pub proof fn lemma_decimal_bytes_are_digits(n: nat)
    ensures
        decimal_bytes(n).len() >= 1,
        forall|i: int| 0 <= i < decimal_bytes(n).len() ==> is_digit_byte(#[trigger] decimal_bytes(n)[i]),
    decreases n,
{
    if n >= 10 {
        lemma_decimal_bytes_are_digits(n / 10);
    }
}

/// Reading back the decimal representation of `n` gives `n`.
pub proof fn lemma_digits_value_of_decimal(n: nat)
    ensures
        digits_value(decimal_bytes(n)) == n,
    decreases n,
{
    if n < 10 {
        assert(decimal_bytes(n).drop_last() =~= Seq::<u8>::empty());
        assert(digit_byte(n) - 48 == n);
        assert(decimal_bytes(n).last() == digit_byte(n));
        assert(digits_value(Seq::<u8>::empty()) == 0);
        assert(digits_value(decimal_bytes(n)) == 0 * 10 + (digit_byte(n) - 48) as nat);
    } else {
        lemma_digits_value_of_decimal(n / 10);
        assert(decimal_bytes(n).drop_last() =~= decimal_bytes(n / 10));
        assert(decimal_bytes(n).last() == digit_byte(n % 10));
        assert(digit_byte(n % 10) - 48 == n % 10);
        assert((n / 10) * 10 + n % 10 == n);
    }
}

/// Leading zeros do not change the value of a digit sequence.
pub proof fn lemma_digits_value_leading_zeros(z: nat, s: Seq<u8>)
    ensures
        digits_value(Seq::new(z, |i: int| 48u8) + s) == digits_value(s),
    decreases s.len(),
{
    let zs = Seq::new(z, |i: int| 48u8);
    if s.len() == 0 {
        assert(zs + s =~= zs);
        lemma_digits_value_zeros(z);
    } else {
        lemma_digits_value_leading_zeros(z, s.drop_last());
        assert((zs + s).drop_last() =~= zs + s.drop_last());
    }
}

/// A run of `'0'` has the value 0.
proof fn lemma_digits_value_zeros(z: nat)
    ensures
        digits_value(Seq::new(z, |i: int| 48u8)) == 0,
    decreases z,
{
    if z > 0 {
        lemma_digits_value_zeros((z - 1) as nat);
        assert(Seq::new(z, |i: int| 48u8).drop_last() =~= Seq::new((z - 1) as nat, |i: int| 48u8));
    }
}

/// Appending a digit never makes the value smaller.
pub proof fn lemma_digits_value_prefix(s: Seq<u8>, k: int)
    requires
        0 <= k <= s.len(),
    ensures
        digits_value(s.subrange(0, k)) <= digits_value(s),
    decreases s.len() - k,
{
    if k < s.len() {
        lemma_digits_value_prefix(s, k + 1);
        assert(s.subrange(0, k + 1).drop_last() =~= s.subrange(0, k));
    } else {
        assert(s.subrange(0, k) =~= s);
    }
}

/// Calls `String::from_utf8`, which keeps the bytes as a `String` exactly when
/// they are valid UTF-8; the string's characters are then the decoded bytes.
#[verifier::external_body]
pub(crate) fn string_from_utf8(bytes: Vec<u8>) -> (r: Option<String>)
    ensures
        r is Some <==> valid_utf8(bytes@),
        r matches Some(s) ==> s@ == decode_utf8(bytes@),
{
    String::from_utf8(bytes).ok()
}

/// Turns ASCII bytes into the string of the same characters.
pub fn ascii_string(bytes: Vec<u8>) -> (s: String)
    requires
        is_ascii_bytes(bytes@),
    ensures
        s@ == ascii_chars(bytes@),
{
    let ghost b = bytes@;
    proof {
        let c = ascii_chars(b);
        assert(is_ascii_chars(c));
        is_ascii_chars_encode_utf8(c);
        assert(encode_utf8(c) =~= b);
        encode_utf8_valid_utf8(c);
        encode_utf8_decode_utf8(c);
    }
    match string_from_utf8(bytes) {
        Some(s) => s,
        None => String::new(),
    }
}

/// Appends the decimal representation of `n` to `buf`.
pub fn push_decimal(buf: &mut Vec<u8>, n: u64)
    ensures
        final(buf)@ == old(buf)@ + decimal_bytes(n as nat),
    decreases n,
{
    if n >= 10 {
        push_decimal(buf, n / 10);
    }
    buf.push((48 + n % 10) as u8);
    assert(buf@ =~= old(buf)@ + decimal_bytes(n as nat));
}

/// `bytes` without its zero bytes, in order.
pub open spec fn without_nul(bytes: Seq<u8>) -> Seq<u8> {
    bytes.filter(|b: u8| b != 0)
}

/// Drops every zero byte of `bytes`, so that what is left can be handed out
/// as a C string.
pub fn strip_nul_bytes(bytes: &[u8]) -> (r: Vec<u8>)
    ensures
        r@ == without_nul(bytes@),
        forall|i: int| 0 <= i < r@.len() ==> r@[i] != 0,
{
    let mut r: Vec<u8> = Vec::new();
    let mut i: usize = 0;
    while i < bytes.len()
        invariant
            i <= bytes.len(),
            r@ == without_nul(bytes@.subrange(0, i as int)),
        decreases bytes.len() - i,
    {
        proof {
            let p = bytes@.subrange(0, i + 1);
            assert(p.drop_last() =~= bytes@.subrange(0, i as int));
            reveal(Seq::filter);
        }
        if bytes[i] != 0 {
            r.push(bytes[i]);
        }
        i = i + 1;
    }
    assert(bytes@.subrange(0, bytes@.len() as int) =~= bytes@);
    assert forall|i: int| 0 <= i < r@.len() implies r@[i] != 0 by {
        bytes@.lemma_filter_pred(|b: u8| b != 0, i);
    }
    r
}

} // verus!
