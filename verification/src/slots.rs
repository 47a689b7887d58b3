//! Naming of slot files, and the list of slots found among file names.
use crate::text::{
    ascii_chars, csv_bytes, ascii_string, decimal_bytes, digits_value, is_ascii_bytes, is_digit_byte,
    lemma_decimal_bytes_are_digits, lemma_digits_value_leading_zeros,
    lemma_digits_value_of_decimal, lemma_digits_value_prefix, push_decimal, zero_padded,
};
use vstd::prelude::*;
use vstd::string::*;
use vstd::utf8::{encode_utf8, is_ascii_chars, is_ascii_chars_encode_utf8};

verus! {

broadcast use vstd::seq_lib::group_to_multiset_ensures;

/// The ASCII bytes of `slot_`, which starts every slot file name.
pub open spec fn slot_prefix() -> Seq<u8> {
    seq![115u8, 108u8, 111u8, 116u8, 95u8]
}

/// The ASCII bytes of `.gmsv`, which ends every slot file name.
pub open spec fn slot_suffix() -> Seq<u8> {
    seq![46u8, 103u8, 109u8, 115u8, 118u8]
}

/// The bytes of the file name of `slot`: `slot_`, the slot number in decimal
/// padded with zeros to at least four digits, then `.gmsv`.
pub open spec fn slot_name_bytes(slot: u32) -> Seq<u8> {
    slot_prefix() + zero_padded(decimal_bytes(slot as nat), 4) + slot_suffix()
}

/// The file name of `slot`, e.g. `slot_0001.gmsv`.
pub open spec fn spec_slot_file_name(slot: u32) -> Seq<char> {
    ascii_chars(slot_name_bytes(slot))
}

/// Whether every byte of `s` is an ASCII digit.
pub open spec fn all_digits(s: Seq<u8>) -> bool {
    forall|i: int| 0 <= i < s.len() ==> is_digit_byte(#[trigger] s[i])
}

/// `s` without one leading `+`, if it has one.
pub open spec fn without_plus(s: Seq<u8>) -> Seq<u8> {
    if s.len() > 0 && s[0] == 43u8 {
        s.drop_first()
    } else {
        s
    }
}

/// The value of one or more ASCII digits, when it fits in a `u32`.
pub open spec fn spec_parse_digits(digits: Seq<u8>) -> Option<u32> {
    if digits.len() > 0 && all_digits(digits) && digits_value(digits) <= u32::MAX {
        Some(digits_value(digits) as u32)
    } else {
        None
    }
}

/// What `str::parse::<u32>` makes of the bytes `s`: an optional leading `+`,
/// then one or more ASCII digits whose value fits in a `u32`.
pub open spec fn spec_parse_u32(s: Seq<u8>) -> Option<u32> {
    spec_parse_digits(without_plus(s))
}

/// The slot that a file named by the bytes `name` holds, if it is a slot file:
/// `name` starts with `slot_`, ends with `.gmsv`, and what lies between parses
/// as a `u32`.
pub open spec fn spec_slot_from_file_name(name: Seq<u8>) -> Option<u32> {
    if name.len() >= 10 && name.subrange(0, 5) == slot_prefix() && name.subrange(
        name.len() - 5,
        name.len() as int,
    ) == slot_suffix() {
        spec_parse_u32(name.subrange(5, name.len() - 5))
    } else {
        None
    }
}

/// The slots named by `names` (file names as UTF-8 bytes), in their order.
pub open spec fn slots_named(names: Seq<Seq<u8>>) -> Seq<u32>
    decreases names.len(),
{
    if names.len() == 0 {
        Seq::empty()
    } else {
        let rest = slots_named(names.drop_last());
        match spec_slot_from_file_name(names.last()) {
            Some(n) => rest.push(n),
            None => rest,
        }
    }
}

/// The UTF-8 bytes of each string.
pub open spec fn utf8_names(names: Seq<String>) -> Seq<Seq<u8>> {
    names.map_values(|s: String| encode_utf8(s@))
}

/// Whether `s` is in ascending order.
pub open spec fn is_sorted(s: Seq<u32>) -> bool {
    forall|i: int, j: int| 0 <= i <= j < s.len() ==> s[i] <= s[j]
}

/// Parses the bytes `s` as `str::parse::<u32>` does.
pub fn parse_u32(s: &[u8]) -> (r: Option<u32>)
    ensures
        r == spec_parse_u32(s@),
{
    let start: usize = if s.len() > 0 && s[0] == 43u8 { 1 } else { 0 };
    let ghost digits = without_plus(s@);
    assert(digits =~= s@.subrange(start as int, s@.len() as int));
    if start == s.len() {
        return None;
    }
    let mut acc: u64 = 0;
    let mut i: usize = start;
    while i < s.len()
        invariant
            start <= i <= s.len(),
            start < s.len(),
            digits == without_plus(s@),
            digits =~= s@.subrange(start as int, s@.len() as int),
            forall|k: int| 0 <= k < i - start ==> is_digit_byte(#[trigger] digits[k]),
            acc as nat == digits_value(digits.subrange(0, i - start)),
            acc <= u32::MAX,
        decreases s.len() - i,
    {
        let b = s[i];
        if !(48u8 <= b && b <= 57u8) {
            assert(!is_digit_byte(digits[i - start]));
            return None;
        }
        let next = acc * 10 + (b - 48u8) as u64;
        proof {
            let p = digits.subrange(0, i + 1 - start);
            assert(p.drop_last() =~= digits.subrange(0, i - start));
            assert(p.last() == b);
        }
        if next > 0xffff_ffffu64 {
            proof {
                lemma_digits_value_prefix(digits, i + 1 - start);
                assert(digits_value(digits.subrange(0, i + 1 - start)) == next);
            }
            return None;
        }
        acc = next;
        i = i + 1;
    }
    assert(digits.subrange(0, s@.len() - start) =~= digits);
    Some(acc as u32)
}

/// The slot that the file `name` holds, if `name` is a slot file name.
pub fn slot_from_file_name(name: &str) -> (r: Option<u32>)
    ensures
        r == spec_slot_from_file_name(name.spec_bytes()),
{
    let b = name.as_bytes();
    let n = b.len();
    if n < 10 {
        return None;
    }
    let prefix_ok = b[0] == 115u8 && b[1] == 108u8 && b[2] == 111u8 && b[3] == 116u8 && b[4] == 95u8;
    let suffix_ok = b[n - 5] == 46u8 && b[n - 4] == 103u8 && b[n - 3] == 109u8 && b[n - 2] == 115u8
        && b[n - 1] == 118u8;
    proof {
        let p = b@.subrange(0, 5);
        let q = b@.subrange(n - 5, n as int);
        if prefix_ok {
            assert(p =~= slot_prefix());
        } else {
            assert(p[0] == b@[0] && p[1] == b@[1] && p[2] == b@[2] && p[3] == b@[3] && p[4] == b@[4]);
        }
        if suffix_ok {
            assert(q =~= slot_suffix());
        } else {
            assert(q[0] == b@[n - 5] && q[1] == b@[n - 4] && q[2] == b@[n - 3] && q[3] == b@[n - 2]
                && q[4] == b@[n - 1]);
        }
    }
    if !(prefix_ok && suffix_ok) {
        return None;
    }
    let middle = slice_range(b, 5, n - 5);
    parse_u32(middle.as_slice())
}

/// The bytes of `s` from `from` up to `to`.
fn slice_range(s: &[u8], from: usize, to: usize) -> (r: Vec<u8>)
    requires
        from <= to <= s.len(),
    ensures
        r@ == s@.subrange(from as int, to as int),
{
    let mut r: Vec<u8> = Vec::new();
    let mut i = from;
    while i < to
        invariant
            from <= i <= to <= s.len(),
            r@ == s@.subrange(from as int, i as int),
        decreases to - i,
    {
        r.push(s[i]);
        i = i + 1;
        assert(r@ =~= s@.subrange(from as int, i as int));
    }
    r
}

/// The file name of slot `slot`, e.g. `slot_0001.gmsv` for slot 1.
pub fn slot_file_name(slot: u32) -> (name: String)
    ensures
        name@ == spec_slot_file_name(slot),
        names_slot_file(encode_utf8(name@), slot),
{
    proof {
        lemma_slot_file_name_shape(slot);
    }
    let mut digits: Vec<u8> = Vec::new();
    push_decimal(&mut digits, slot as u64);
    assert(digits@ =~= decimal_bytes(slot as nat));
    proof {
        lemma_decimal_bytes_are_digits(slot as nat);
    }
    let mut buf: Vec<u8> = Vec::new();
    buf.push(115u8);
    buf.push(108u8);
    buf.push(111u8);
    buf.push(116u8);
    buf.push(95u8);
    assert(buf@ =~= slot_prefix());
    let mut k = digits.len();
    while k < 4
        invariant
            digits.len() <= k <= 4 || (digits.len() >= 4 && k == digits.len()),
            buf@ =~= slot_prefix() + Seq::new((k - digits.len()) as nat, |i: int| 48u8),
        decreases 4 - k,
    {
        buf.push(48u8);
        k = k + 1;
    }
    buf.extend_from_slice(digits.as_slice());
    assert(buf@ =~= slot_prefix() + zero_padded(decimal_bytes(slot as nat), 4));
    buf.push(46u8);
    buf.push(103u8);
    buf.push(109u8);
    buf.push(115u8);
    buf.push(118u8);
    assert(buf@ =~= slot_name_bytes(slot));
    assert(is_ascii_bytes(buf@)) by {
        assert forall|i: int| 0 <= i < buf@.len() implies buf@[i] < 128 by {
            if 5 <= i < buf@.len() - 5 {
                let z = zero_padded(decimal_bytes(slot as nat), 4);
                if digits@.len() < 4 {
                    let zeros = Seq::new((4 - digits@.len()) as nat, |j: int| 48u8);
                    if i - 5 >= zeros.len() {
                        assert(is_digit_byte(digits@[i - 5 - zeros.len()]));
                    }
                } else {
                    assert(is_digit_byte(digits@[i - 5]));
                }
            }
        }
    }
    ascii_string(buf)
}

/// Whether the bytes `b` name the file of `slot`: `slot_`, then the slot's
/// decimal digits left-padded with `0` to at least four, then `.gmsv`. The
/// digits are at least four, and more than four only with no leading zero.
pub open spec fn names_slot_file(b: Seq<u8>, slot: u32) -> bool {
    &&& b.len() >= 14
    &&& b.subrange(0, 5) == seq![115u8, 108u8, 111u8, 116u8, 95u8]
    &&& b.subrange(b.len() - 5, b.len() as int) == seq![46u8, 103u8, 109u8, 115u8, 118u8]
    &&& all_digits(b.subrange(5, b.len() - 5))
    &&& digits_value(b.subrange(5, b.len() - 5)) == slot
    &&& (b.len() > 14 ==> b[5] != 48u8)
}

/// A decimal representation of more than one digit does not start with `0`.
proof fn lemma_decimal_bytes_leading_digit(n: nat)
    ensures
        decimal_bytes(n).len() == 1 <==> n < 10,
        n >= 10 ==> decimal_bytes(n)[0] != 48u8,
    decreases n,
{
    if n >= 10 {
        lemma_decimal_bytes_leading_digit(n / 10);
        lemma_decimal_bytes_are_digits(n / 10);
        assert(decimal_bytes(n)[0] == decimal_bytes(n / 10)[0]);
    }
}

/// The UTF-8 bytes of a slot's file name are its name bytes.
proof fn lemma_slot_file_name_bytes(slot: u32)
    ensures
        encode_utf8(spec_slot_file_name(slot)) == slot_name_bytes(slot),
{
    let b = slot_name_bytes(slot);
    let d = decimal_bytes(slot as nat);
    lemma_decimal_bytes_are_digits(slot as nat);
    assert(is_ascii_bytes(b)) by {
        assert forall|i: int| 0 <= i < b.len() implies b[i] < 128 by {
            if 5 <= i < b.len() - 5 {
                if d.len() < 4 {
                    let zeros = Seq::new((4 - d.len()) as nat, |j: int| 48u8);
                    if i - 5 >= zeros.len() {
                        assert(is_digit_byte(d[i - 5 - zeros.len()]));
                    }
                } else {
                    assert(is_digit_byte(d[i - 5]));
                }
            }
        }
    }
    let c = ascii_chars(b);
    assert(is_ascii_chars(c));
    is_ascii_chars_encode_utf8(c);
    assert(encode_utf8(c) =~= b);
}

/// The file name of a slot is `slot_`, the slot's decimal digits padded with
/// `0` to at least four, and `.gmsv`.
pub proof fn lemma_slot_file_name_shape(slot: u32)
    ensures
        names_slot_file(encode_utf8(spec_slot_file_name(slot)), slot),
{
    lemma_slot_file_name_bytes(slot);
    let b = slot_name_bytes(slot);
    let d = decimal_bytes(slot as nat);
    lemma_decimal_bytes_are_digits(slot as nat);
    lemma_digits_value_of_decimal(slot as nat);
    lemma_decimal_bytes_leading_digit(slot as nat);
    let z = zero_padded(d, 4);
    assert(b.subrange(0, 5) =~= seq![115u8, 108u8, 111u8, 116u8, 95u8]);
    assert(b.subrange(b.len() - 5, b.len() as int) =~= seq![46u8, 103u8, 109u8, 115u8, 118u8]);
    assert(b.subrange(5, b.len() - 5) =~= z);
    if d.len() < 4 {
        lemma_digits_value_leading_zeros((4 - d.len()) as nat, d);
        let zeros = Seq::new((4 - d.len()) as nat, |j: int| 48u8);
        assert forall|i: int| 0 <= i < z.len() implies is_digit_byte(#[trigger] z[i]) by {
            if i >= zeros.len() {
                assert(is_digit_byte(d[i - zeros.len()]));
            }
        }
    } else {
        assert(z =~= d);
        if d.len() > 4 {
            assert(slot >= 10);
            assert(b[5] == d[0]);
        }
    }
}

/// Reading the name of a slot's file gives the slot back.
pub proof fn lemma_slot_file_name_roundtrip(slot: u32)
    ensures
        spec_slot_from_file_name(encode_utf8(spec_slot_file_name(slot))) == Some(slot),
{
    let b = slot_name_bytes(slot);
    let d = decimal_bytes(slot as nat);
    lemma_decimal_bytes_are_digits(slot as nat);
    lemma_digits_value_of_decimal(slot as nat);
    let z = zero_padded(d, 4);
    assert(is_ascii_bytes(b)) by {
        assert forall|i: int| 0 <= i < b.len() implies b[i] < 128 by {
            if 5 <= i < b.len() - 5 {
                if d.len() < 4 {
                    let zeros = Seq::new((4 - d.len()) as nat, |j: int| 48u8);
                    if i - 5 >= zeros.len() {
                        assert(is_digit_byte(d[i - 5 - zeros.len()]));
                    }
                } else {
                    assert(is_digit_byte(d[i - 5]));
                }
            }
        }
    }
    let c = ascii_chars(b);
    assert(is_ascii_chars(c));
    is_ascii_chars_encode_utf8(c);
    assert(encode_utf8(c) =~= b);
    assert(b.subrange(0, 5) =~= slot_prefix());
    assert(b.subrange(b.len() - 5, b.len() as int) =~= slot_suffix());
    assert(b.subrange(5, b.len() - 5) =~= z);
    if d.len() < 4 {
        lemma_digits_value_leading_zeros((4 - d.len()) as nat, d);
        let zeros = Seq::new((4 - d.len()) as nat, |j: int| 48u8);
        assert(z[0] == 48u8);
        assert forall|i: int| 0 <= i < z.len() implies is_digit_byte(#[trigger] z[i]) by {
            if i >= zeros.len() {
                assert(is_digit_byte(d[i - zeros.len()]));
            }
        }
    } else {
        assert(z[0] != 43u8) by {
            assert(is_digit_byte(d[0]));
        }
    }
}

/// A slot is listed exactly when some name in the listing is a file name of
/// that slot.
pub proof fn lemma_slots_named_contains(names: Seq<Seq<u8>>, slot: u32)
    ensures
        slots_named(names).contains(slot) <==> exists|i: int|
            0 <= i < names.len() && #[trigger] spec_slot_from_file_name(names[i]) == Some(slot),
    decreases names.len(),
{
    if names.len() > 0 {
        let init = names.drop_last();
        lemma_slots_named_contains(init, slot);
        let rest = slots_named(init);
        if slots_named(names).contains(slot) {
            if rest.contains(slot) {
                let i = choose|i: int| 0 <= i < init.len() && #[trigger] spec_slot_from_file_name(init[i]) == Some(slot);
                assert(names[i] == init[i]);
            } else {
                let k = choose|k: int| 0 <= k < slots_named(names).len() && slots_named(names)[k] == slot;
                assert(spec_slot_from_file_name(names[names.len() - 1]) == Some(slot));
            }
        } else {
            assert forall|i: int| 0 <= i < names.len() implies #[trigger] spec_slot_from_file_name(names[i]) != Some(slot) by {
                if i < names.len() - 1 {
                    assert(names[i] == init[i]);
                    if spec_slot_from_file_name(init[i]) == Some(slot) {
                        assert(rest.contains(slot));
                        let k = choose|k: int| 0 <= k < rest.len() && rest[k] == slot;
                        match spec_slot_from_file_name(names.last()) {
                            Some(n) => assert(rest.push(n)[k] == slot),
                            None => {},
                        }
                    }
                } else {
                    match spec_slot_from_file_name(names.last()) {
                        Some(n) => assert(rest.push(n)[rest.len() as int] == n),
                        None => {},
                    }
                }
            }
        }
    }
}

/// A listing that holds the file of `slot`, written as `slot_file_name` names
/// it, lists `slot`.
pub proof fn lemma_saved_slot_is_listed(names: Seq<Seq<u8>>, slot: u32, i: int)
    requires
        0 <= i < names.len(),
        names[i] == encode_utf8(spec_slot_file_name(slot)),
    ensures
        slots_named(names).contains(slot),
{
    lemma_slot_file_name_roundtrip(slot);
    assert(spec_slot_from_file_name(names[i]) == Some(slot));
    lemma_slots_named_contains(names, slot);
}

/// Different slots are stored under different file names.
pub proof fn lemma_slot_file_names_distinct(a: u32, b: u32)
    requires
        a != b,
    ensures
        spec_slot_file_name(a) != spec_slot_file_name(b),
{
    lemma_slot_file_name_roundtrip(a);
    lemma_slot_file_name_roundtrip(b);
}

/// Puts `slot` into the ascending `sorted` at its place.
fn insert_sorted(sorted: &mut Vec<u32>, slot: u32)
    requires
        is_sorted(old(sorted)@),
    ensures
        is_sorted(final(sorted)@),
        final(sorted)@.to_multiset() == old(sorted)@.to_multiset().insert(slot),
{
    let mut j: usize = 0;
    while j < sorted.len() && sorted[j] <= slot
        invariant
            j <= sorted.len(),
            forall|k: int| 0 <= k < j ==> sorted@[k] <= slot,
        decreases sorted.len() - j,
    {
        j = j + 1;
    }
    let ghost before = sorted@;
    sorted.insert(j, slot);
    proof {
        assert(sorted@ == before.insert(j as int, slot));
        assert forall|a: int, b: int| 0 <= a <= b < sorted@.len() implies sorted@[a] <= sorted@[b] by {
            if a < j && b > j {
                assert(before[a] <= slot);
                if j < before.len() {
                    assert(slot < before[j as int]);
                    assert(before[j as int] <= before[b - 1]);
                }
            } else if a == j && b > j {
                assert(slot < before[j as int]);
                assert(before[j as int] <= before[b - 1]);
            }
        }
    }
}

/// The slots among the file names `names`, in ascending order: every name
/// that is a slot file name contributes its slot, duplicates included.
pub fn collect_slots(names: &Vec<String>) -> (slots: Vec<u32>)
    ensures
        is_sorted(slots@),
        slots@.to_multiset() == slots_named(utf8_names(names@)).to_multiset(),
{
    let mut slots: Vec<u32> = Vec::new();
    let mut i: usize = 0;
    while i < names.len()
        invariant
            i <= names.len(),
            is_sorted(slots@),
            slots@.to_multiset() == slots_named(utf8_names(names@).subrange(0, i as int)).to_multiset(),
        decreases names.len() - i,
    {
        let found = slot_from_file_name(names[i].as_str());
        proof {
            let all = utf8_names(names@);
            assert(all.subrange(0, i + 1).drop_last() =~= all.subrange(0, i as int));
            assert(all.subrange(0, i + 1).last() == encode_utf8(names@[i as int]@));
        }
        match found {
            Some(n) => insert_sorted(&mut slots, n),
            None => {},
        }
        i = i + 1;
    }
    assert(utf8_names(names@).subrange(0, names@.len() as int) =~= utf8_names(names@));
    slots
}

/// The fields of `s` between the separator byte `sep`, in order: one more
/// field than there are separators.
pub open spec fn split_fields(s: Seq<u8>, sep: u8) -> Seq<Seq<u8>>
    decreases s.len(),
{
    if s.len() == 0 {
        seq![Seq::<u8>::empty()]
    } else {
        let f = split_fields(s.drop_last(), sep);
        if s.last() == sep {
            f.push(Seq::<u8>::empty())
        } else {
            f.update(f.len() - 1, f.last().push(s.last()))
        }
    }
}

/// Whether the bytes `text` list `slots`: empty for no slots, otherwise one
/// field per slot between commas, each field the decimal digits of its slot.
pub open spec fn lists_slots(text: Seq<u8>, slots: Seq<u32>) -> bool {
    if slots.len() == 0 {
        text.len() == 0
    } else {
        let f = split_fields(text, 44u8);
        &&& f.len() == slots.len()
        &&& forall|i: int|
            0 <= i < f.len() ==> #[trigger] f[i].len() > 0 && all_digits(f[i]) && digits_value(f[i]) == slots[i]
    }
}

proof fn lemma_split_fields_nonempty(s: Seq<u8>, sep: u8)
    ensures
        split_fields(s, sep).len() >= 1,
    decreases s.len(),
{
    if s.len() > 0 {
        lemma_split_fields_nonempty(s.drop_last(), sep);
    }
}

/// Appending bytes free of the separator extends the last field.
proof fn lemma_split_fields_extend(a: Seq<u8>, d: Seq<u8>, sep: u8)
    requires
        forall|k: int| 0 <= k < d.len() ==> d[k] != sep,
    ensures
        split_fields(a + d, sep) == split_fields(a, sep).update(
            split_fields(a, sep).len() - 1,
            split_fields(a, sep).last() + d,
        ),
    decreases d.len(),
{
    lemma_split_fields_nonempty(a, sep);
    let fa = split_fields(a, sep);
    if d.len() == 0 {
        assert(a + d =~= a);
        assert(fa.last() + d =~= fa.last());
        assert(fa.update(fa.len() - 1, fa.last()) =~= fa);
    } else {
        let d1 = d.drop_last();
        lemma_split_fields_extend(a, d1, sep);
        assert((a + d).drop_last() =~= a + d1);
        assert((a + d).last() == d.last());
        let f = split_fields(a + d1, sep);
        assert((fa.last() + d1).push(d.last()) =~= fa.last() + d);
        assert(f.update(f.len() - 1, f.last().push(d.last())) =~= fa.update(fa.len() - 1, fa.last() + d));
    }
}

/// The comma-separated text of a list of slots has one field per slot, each
/// the slot's decimal digits.
pub proof fn lemma_csv_fields(slots: Seq<u32>)
    requires
        slots.len() > 0,
    ensures
        split_fields(csv_bytes(slots), 44u8).len() == slots.len(),
        forall|i: int|
            0 <= i < slots.len() ==> #[trigger] split_fields(csv_bytes(slots), 44u8)[i] == decimal_bytes(
                slots[i] as nat,
            ),
    decreases slots.len(),
{
    let d = decimal_bytes(slots.last() as nat);
    lemma_decimal_bytes_are_digits(slots.last() as nat);
    assert forall|k: int| 0 <= k < d.len() implies d[k] != 44u8 by {
        assert(is_digit_byte(d[k]));
    }
    if slots.len() == 1 {
        lemma_split_fields_extend(Seq::<u8>::empty(), d, 44u8);
        assert(Seq::<u8>::empty() + d =~= d);
        assert(Seq::<u8>::empty() + d =~= decimal_bytes(slots[0] as nat));
        assert(split_fields(Seq::<u8>::empty(), 44u8) =~= seq![Seq::<u8>::empty()]);
        assert(split_fields(d, 44u8) =~= seq![d]);
    } else {
        let init = slots.drop_last();
        lemma_csv_fields(init);
        let a = csv_bytes(init).push(44u8);
        lemma_split_fields_extend(a, d, 44u8);
        assert(a.drop_last() =~= csv_bytes(init));
        let fi = split_fields(csv_bytes(init), 44u8);
        assert(split_fields(a, 44u8) == fi.push(Seq::<u8>::empty()));
        assert(Seq::<u8>::empty() + d =~= d);
        let f = split_fields(csv_bytes(slots), 44u8);
        assert(f =~= fi.push(d));
        assert forall|i: int| 0 <= i < slots.len() implies #[trigger] f[i] == decimal_bytes(slots[i] as nat) by {
            if i < slots.len() - 1 {
                assert(init[i] == slots[i]);
                assert(fi[i] == decimal_bytes(init[i] as nat));
            }
        }
    }
}

/// The text of a list of slots lists exactly those slots, in order.
pub proof fn lemma_csv_lists_slots(slots: Seq<u32>)
    ensures
        lists_slots(csv_bytes(slots), slots),
{
    if slots.len() > 0 {
        lemma_csv_fields(slots);
        let f = split_fields(csv_bytes(slots), 44u8);
        assert forall|i: int| 0 <= i < f.len() implies #[trigger] f[i].len() > 0 && all_digits(f[i])
            && digits_value(f[i]) == slots[i] by {
            lemma_decimal_bytes_are_digits(slots[i] as nat);
            lemma_digits_value_of_decimal(slots[i] as nat);
        }
    }
}

/// The decimal numbers of `slots`, separated by commas, e.g. `1,2,3`.
pub open spec fn spec_slot_list_text(slots: Seq<u32>) -> Seq<char> {
    ascii_chars(csv_bytes(slots))
}

/// Writes `slots` as comma-separated decimal numbers, e.g. `1,2,3`; no slots
/// give the empty string.
pub fn slot_list_text(slots: &[u32]) -> (text: String)
    ensures
        text@ == spec_slot_list_text(slots@),
        lists_slots(encode_utf8(text@), slots@),
{
    let mut buf: Vec<u8> = Vec::new();
    let mut i: usize = 0;
    while i < slots.len()
        invariant
            i <= slots.len(),
            buf@ == csv_bytes(slots@.subrange(0, i as int)),
            is_ascii_bytes(buf@),
        decreases slots.len() - i,
    {
        let ghost before = buf@;
        if i > 0 {
            buf.push(44u8);
        }
        push_decimal(&mut buf, slots[i] as u64);
        proof {
            let p = slots@.subrange(0, i + 1);
            assert(p.drop_last() =~= slots@.subrange(0, i as int));
            assert(buf@ =~= csv_bytes(p));
            lemma_decimal_bytes_are_digits(slots@[i as int] as nat);
            let d = decimal_bytes(slots@[i as int] as nat);
            assert forall|k: int| 0 <= k < buf@.len() implies buf@[k] < 128 by {
                if k >= buf@.len() - d.len() {
                    assert(is_digit_byte(d[k - (buf@.len() - d.len())]));
                } else if k < before.len() {
                    assert(buf@[k] == before[k]);
                }
            }
        }
        i = i + 1;
    }
    assert(slots@.subrange(0, slots@.len() as int) =~= slots@);
    proof {
        lemma_csv_lists_slots(slots@);
        let c = ascii_chars(buf@);
        assert(is_ascii_chars(c));
        is_ascii_chars_encode_utf8(c);
        assert(encode_utf8(c) =~= buf@);
    }
    ascii_string(buf)
}

} // verus!
