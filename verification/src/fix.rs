//! A parser for FIX messages.
//!
//! Fields are read in place from a byte buffer: a decimal tag, `=`, a value and a delimiter, which
//! is SOH where the buffer holds one and `|` where it does not.

use crate::bytes::{le_value, read_le};
use crate::errors::EngineError;
use crate::model::{Order, Side};
use vstd::prelude::*;
use vstd::slice::slice_subrange;

verus! {

/// The FIX delimiter.
pub const SOH: u8 = 1;

/// The readable delimiter, `|`.
pub const PIPE: u8 = 124;

/// `=`, between tag and value.
pub const EQUALS: u8 = 61;

/// The digit `0`.
pub const ZERO: u8 = 48;

/// The digit `9`.
pub const NINE: u8 = 57;

/// The first position from `start` on that holds `byte`, the length where there is none.
pub open spec fn first_from(data: Seq<u8>, start: int, byte: u8) -> int
    decreases data.len() - start,
{
    if start >= data.len() {
        data.len() as int
    } else if data[start] == byte {
        start
    } else {
        first_from(data, start + 1, byte)
    }
}

/// The position that is found lies in the data, or at its end.
pub proof fn lemma_first_from(data: Seq<u8>, start: int, byte: u8)
    requires
        0 <= start <= data.len(),
    ensures
        start <= first_from(data, start, byte) <= data.len(),
    decreases data.len() - start,
{
    if start < data.len() && data[start] != byte {
        lemma_first_from(data, start + 1, byte);
    }
}

/// Every byte is a decimal digit.
pub open spec fn all_digits(bytes: Seq<u8>) -> bool {
    forall|i: int| 0 <= i < bytes.len() ==> ZERO <= #[trigger] bytes[i] <= NINE
}

/// The value of a decimal numeral.
pub open spec fn decimal(digits: Seq<u8>) -> nat
    decreases digits.len(),
{
    if digits.len() == 0 {
        0
    } else {
        (10 * decimal(digits.drop_last()) + (digits.last() - ZERO)) as nat
    }
}

/// The delimiter of a message.
pub open spec fn delimiter_of(data: Seq<u8>) -> u8 {
    if data.contains(SOH) {
        SOH
    } else {
        PIPE
    }
}

/// Where the tag of the field at `pos` ends.
pub open spec fn tag_end(data: Seq<u8>, pos: int) -> int {
    first_from(data, pos, EQUALS)
}

/// Where the value of the field at `pos` ends.
pub open spec fn value_end(data: Seq<u8>, delimiter: u8, pos: int) -> int {
    first_from(data, tag_end(data, pos) + 1, delimiter)
}

/// The field at `pos` has a tag of digits, and `=` after it.
pub open spec fn framed(data: Seq<u8>, pos: int) -> bool {
    tag_end(data, pos) < data.len() && all_digits(data.subrange(pos, tag_end(data, pos)))
}

/// The tag of the field at `pos`: its numeral, modulo 2^32.
pub open spec fn tag_at(data: Seq<u8>, pos: int) -> u32 {
    (decimal(data.subrange(pos, tag_end(data, pos))) % 0x1_0000_0000) as u32
}

/// The value of the field at `pos`.
pub open spec fn value_at(data: Seq<u8>, delimiter: u8, pos: int) -> Seq<u8> {
    data.subrange(tag_end(data, pos) + 1, value_end(data, delimiter, pos))
}

/// Where the field after the one at `pos` starts.
pub open spec fn next_pos(data: Seq<u8>, delimiter: u8, pos: int) -> int {
    if value_end(data, delimiter, pos) < data.len() {
        value_end(data, delimiter, pos) + 1
    } else {
        data.len() as int
    }
}

/// A field follows another, and ends in the data.
pub proof fn lemma_next_pos(data: Seq<u8>, delimiter: u8, pos: int)
    requires
        0 <= pos < data.len(),
        framed(data, pos),
    ensures
        pos <= tag_end(data, pos) < value_end(data, delimiter, pos) <= data.len(),
        pos < next_pos(data, delimiter, pos) <= data.len(),
{
    lemma_first_from(data, pos, EQUALS);
    lemma_first_from(data, tag_end(data, pos) + 1, delimiter);
}

/// A field: its tag and its value.
pub type Field = (u32, Seq<u8>);

/// The fields from `pos` on, `None` where one of them is malformed.
pub open spec fn fields_from(data: Seq<u8>, delimiter: u8, pos: int) -> Option<Seq<Field>>
    decreases data.len() - pos,
{
    if pos >= data.len() || pos < 0 {
        Some(seq![])
    } else if !framed(data, pos) {
        None
    } else {
        let next = next_pos(data, delimiter, pos);
        if next <= pos {
            None
        } else {
            match fields_from(data, delimiter, next) {
                Some(rest) => Some(
                    seq![(tag_at(data, pos), value_at(data, delimiter, pos))] + rest,
                ),
                None => None,
            }
        }
    }
}

/// The last value of a tag.
pub open spec fn last_value(fields: Seq<Field>, tag: u32) -> Option<Seq<u8>>
    decreases fields.len(),
{
    if fields.len() == 0 {
        None
    } else if fields.last().0 == tag {
        Some(fields.last().1)
    } else {
        last_value(fields.drop_last(), tag)
    }
}

/// The number that a value stands for: a decimal numeral modulo 2^64, or else its first eight
/// bytes as a little-endian integer.
pub open spec fn number(bytes: Seq<u8>) -> u64 {
    if all_digits(bytes) {
        (decimal(bytes) % 0x1_0000_0000_0000_0000) as u64
    } else if bytes.len() < 8 {
        le_value(bytes) as u64
    } else {
        le_value(bytes.take(8)) as u64
    }
}

/// The side that a value stands for.
pub open spec fn side_of(value: Seq<u8>) -> Option<Side> {
    if value == seq![49u8] {
        Some(Side::Buy)
    } else if value == seq![50u8] {
        Some(Side::Sell)
    } else {
        None
    }
}

/// A value was read as this number, or there was none.
pub open spec fn is_number(read: Option<u64>, value: Option<Seq<u8>>) -> bool {
    match value {
        Some(bytes) => read == Some(number(bytes)),
        None => read is None,
    }
}

/// A value was read as this side, or there was none.
pub open spec fn is_side(read: Option<Side>, value: Option<Seq<u8>>) -> bool {
    match value {
        Some(bytes) => read == side_of(bytes) && read is Some,
        None => read is None,
    }
}

/// Some side field has a value that is no side.
pub open spec fn has_bad_side(fields: Seq<Field>) -> bool {
    exists|i: int|
        0 <= i < fields.len() && (#[trigger] fields[i]).0 == 54 && side_of(fields[i].1) is None
}

/// The order that a list of fields stands for.
pub open spec fn order_of(fields: Seq<Field>) -> Result<Order, EngineError> {
    let order_id = last_value(fields, 11);
    let quantity = last_value(fields, 38);
    let price = last_value(fields, 44);
    let client_id = last_value(fields, 49);
    let side = last_value(fields, 54);
    if has_bad_side(fields) {
        Err(EngineError::InvalidSide)
    } else if order_id is Some && quantity is Some && price is Some && client_id is Some
        && side is Some {
        Ok(
            Order {
                order_id: number(order_id->0),
                price: number(price->0),
                quantity: number(quantity->0),
                client_id: number(client_id->0),
                side: side_of(side->0)->0,
            },
        )
    } else {
        Err(EngineError::InvalidStateTransition)
    }
}

/// The order that a message stands for.
pub open spec fn message_order(data: Seq<u8>) -> Result<Order, EngineError> {
    match fields_from(data, delimiter_of(data), 0) {
        Some(fields) => order_of(fields),
        None => Err(EngineError::InvalidSide),
    }
}

/// Returns the first position from `start` on that holds `byte`, the length where there is none.
fn find_byte(data: &[u8], start: usize, byte: u8) -> (position: usize)
    requires
        start <= data@.len(),
    ensures
        position == first_from(data@, start as int, byte),
        start <= position <= data@.len(),
        position < data@.len() ==> data@[position as int] == byte,
        forall|i: int| start <= i < position ==> data@[i] != byte,
{
    let mut i: usize = start;
    while i < data.len()
        invariant
            start <= i <= data@.len(),
            first_from(data@, i as int, byte) == first_from(data@, start as int, byte),
            forall|j: int| start <= j < i ==> data@[j] != byte,
        decreases data@.len() - i,
    {
        if data[i] == byte {
            return i;
        }
        i = i + 1;
    }
    i
}

/// A reader of the fields of a FIX message.
pub struct FixParser<'a> {
    /// The message.
    pub data: &'a [u8],
    /// Where the next field starts.
    pub pos: usize,
    /// The byte that ends a value.
    pub delimiter: u8,
}

impl<'a> FixParser<'a> {
    /// Creates a reader at the start of a message, and detects its delimiter.
    pub fn new(data: &'a [u8]) -> (parser: FixParser<'a>)
        ensures
            parser.data@ == data@,
            parser.pos == 0,
            parser.delimiter == delimiter_of(data@),
            parser.delimiter == if data@.contains(1u8) {
                1u8
            } else {
                124u8
            },
    {
        let delimiter: u8 = if find_byte(data, 0, SOH) < data.len() {
            SOH
        } else {
            PIPE
        };
        FixParser { data, pos: 0, delimiter }
    }

    /// Reads the next field: `None` at the end, an error where the field is malformed. A malformed
    /// field is not passed.
    pub fn next_tag(&mut self) -> (field: Option<Result<(u32, &'a [u8]), EngineError>>)
        ensures
            final(self).data@ == old(self).data@,
            final(self).delimiter == old(self).delimiter,
            ({
                let data = old(self).data@;
                let delimiter = old(self).delimiter;
                let pos = old(self).pos as int;
                if pos >= data.len() {
                    field is None && final(self).pos == pos
                } else if !framed(data, pos) {
                    &&& field == Some(
                        Err::<(u32, &'a [u8]), EngineError>(EngineError::InvalidSide),
                    )
                    &&& final(self).pos == pos
                } else {
                    &&& field matches Some(Ok(pair))
                    &&& pair.0 == tag_at(data, pos)
                    &&& pair.1@ == value_at(data, delimiter, pos)
                    &&& final(self).pos == next_pos(data, delimiter, pos)
                }
            }),
    {
        if self.pos >= self.data.len() {
            return None;
        }
        let start: usize = self.pos;
        let eq_idx: usize = find_byte(self.data, start, EQUALS);
        if eq_idx == self.data.len() {
            return Some(Err(EngineError::InvalidSide));
        }
        let tag_slice = slice_subrange(self.data, start, eq_idx);
        let tag: u32 = match parse_tag(tag_slice) {
            Some(tag) => tag,
            None => {
                return Some(Err(EngineError::InvalidSide));
            },
        };
        let val_start: usize = eq_idx + 1;
        let delim_idx: usize = find_byte(self.data, val_start, self.delimiter);
        let val_slice = slice_subrange(self.data, val_start, delim_idx);
        self.pos = if delim_idx < self.data.len() {
            delim_idx + 1
        } else {
            delim_idx
        };
        Some(Ok((tag, val_slice)))
    }
}

/// Reads the numeral of a tag, `None` where a byte is no digit.
fn parse_tag(digits: &[u8]) -> (tag: Option<u32>)
    ensures
        tag == if all_digits(digits@) {
            Some((decimal(digits@) % 0x1_0000_0000) as u32)
        } else {
            None
        },
{
    let mut tag: u32 = 0;
    let mut i: usize = 0;
    while i < digits.len()
        invariant
            i <= digits@.len(),
            forall|j: int| 0 <= j < i ==> ZERO <= #[trigger] digits@[j] <= NINE,
            tag == decimal(digits@.take(i as int)) % 0x1_0000_0000,
        decreases digits@.len() - i,
    {
        let b: u8 = digits[i];
        if b < ZERO || b > NINE {
            return None;
        }
        proof {
            let before = digits@.take(i as int);
            let after = digits@.take(i + 1);
            assert(after.drop_last() =~= before);
            lemma_shifted(decimal(before), (b - ZERO) as nat, 0x1_0000_0000);
        }
        tag = tag.wrapping_mul(10).wrapping_add((b - ZERO) as u32);
        i = i + 1;
    }
    assert(digits@.take(i as int) =~= digits@);
    Some(tag)
}

/// Appending a digit commutes with the remainder.
proof fn lemma_shifted(value: nat, digit: nat, range: nat)
    requires
        range > 0,
    ensures
        (10 * value + digit) % range == ((10 * (value % range)) % range + digit) % range,
{
    let whole = 10 * value as int;
    let part = 10 * (value % range) as int;
    vstd::arithmetic::div_mod::lemma_mul_mod_noop_right(10, value as int, range as int);
    vstd::arithmetic::div_mod::lemma_add_mod_noop(whole, digit as int, range as int);
    vstd::arithmetic::div_mod::lemma_add_mod_noop(part % range as int, digit as int, range as int);
    vstd::arithmetic::div_mod::lemma_mod_twice(part, range as int);
}

/// Reads a value as a number.
///
/// A value of digits is a decimal numeral. Any other value is loaded as a little-endian integer
/// from its first eight bytes.
pub fn bytes_to_u64(bytes: &[u8]) -> (value: u64)
    ensures
        value == number(bytes@),
{
    let mut value: u64 = 0;
    let mut i: usize = 0;
    while i < bytes.len()
        invariant
            i <= bytes@.len(),
            forall|j: int| 0 <= j < i ==> ZERO <= #[trigger] bytes@[j] <= NINE,
            value == decimal(bytes@.take(i as int)) % 0x1_0000_0000_0000_0000,
        decreases bytes@.len() - i,
    {
        let b: u8 = bytes[i];
        if b < ZERO || b > NINE {
            let len: usize = if bytes.len() < 8 {
                bytes.len()
            } else {
                8
            };
            assert(bytes@.subrange(0, len as int) =~= if bytes@.len() < 8 {
                bytes@
            } else {
                bytes@.take(8)
            });
            return read_le(bytes, 0, len);
        }
        proof {
            let before = bytes@.take(i as int);
            let after = bytes@.take(i + 1);
            assert(after.drop_last() =~= before);
            lemma_shifted(decimal(before), (b - ZERO) as nat, 0x1_0000_0000_0000_0000);
        }
        value = value.wrapping_mul(10).wrapping_add((b - ZERO) as u64);
        i = i + 1;
    }
    assert(bytes@.take(i as int) =~= bytes@);
    value
}

/// The value of a tag that was met last, after one more field.
proof fn lemma_last_value(fields: Seq<Field>, field: Field, tag: u32)
    ensures
        last_value(fields.push(field), tag) == if field.0 == tag {
            Some(field.1)
        } else {
            last_value(fields, tag)
        },
{
    assert(fields.push(field).drop_last() =~= fields);
}

/// Reads an order from a message.
///
/// The fields are the order's identifier (11), quantity (38), price (44), client (49) and side
/// (54). The last field of a tag counts, and other tags are passed over.
pub fn parse_fix_to_order(data: &[u8]) -> (order: Result<Order, EngineError>)
    ensures
        order == message_order(data@),
{
    let mut parser = FixParser::new(data);
    let mut order_id: Option<u64> = None;
    let mut quantity: Option<u64> = None;
    let mut price: Option<u64> = None;
    let mut client_id: Option<u64> = None;
    let mut side: Option<Side> = None;
    let ghost delimiter = delimiter_of(data@);
    let ghost mut seen: Seq<Field> = seq![];
    proof {
        let all = fields_from(data@, delimiter, 0);
        assert(all is Some ==> seen + all->0 =~= all->0);
    }
    loop
        invariant
            parser.data@ == data@,
            parser.delimiter == delimiter == delimiter_of(data@),
            parser.pos <= data@.len(),
            fields_from(data@, delimiter, 0) == match fields_from(
                data@,
                delimiter,
                parser.pos as int,
            ) {
                Some(rest) => Some(seen + rest),
                None => None,
            },
            !has_bad_side(seen),
            is_number(order_id, last_value(seen, 11)),
            is_number(quantity, last_value(seen, 38)),
            is_number(price, last_value(seen, 44)),
            is_number(client_id, last_value(seen, 49)),
            is_side(side, last_value(seen, 54)),
        ensures
            parser.pos >= data@.len(),
        decreases data@.len() - parser.pos,
    {
        let ghost pos = parser.pos as int;
        proof {
            if framed(data@, pos) {
                lemma_next_pos(data@, delimiter, pos);
            }
        }
        match parser.next_tag() {
            None => {
                break;
            },
            Some(Err(error)) => {
                return Err(error);
            },
            Some(Ok((tag, value))) => {
                let ghost field = (tag, value@);
                let ghost before = seen;
                proof {
                    seen = before.push(field);
                    let rest = fields_from(data@, delimiter, next_pos(data@, delimiter, pos));
                    assert(rest is Some ==> before + (seq![field] + rest->0) =~= seen + rest->0);
                    lemma_last_value(before, field, 11);
                    lemma_last_value(before, field, 38);
                    lemma_last_value(before, field, 44);
                    lemma_last_value(before, field, 49);
                    lemma_last_value(before, field, 54);
                }
                if tag == 11 {
                    order_id = Some(bytes_to_u64(value));
                } else if tag == 38 {
                    quantity = Some(bytes_to_u64(value));
                } else if tag == 44 {
                    price = Some(bytes_to_u64(value));
                } else if tag == 49 {
                    client_id = Some(bytes_to_u64(value));
                } else if tag == 54 {
                    side = parse_side(value);
                    if side.is_none() {
                        proof {
                            let rest = fields_from(
                                data@,
                                delimiter,
                                next_pos(data@, delimiter, pos),
                            );
                            if rest is Some {
                                assert((seen + rest->0)[before.len() as int] == field);
                            }
                        }
                        return Err(EngineError::InvalidSide);
                    }
                }
                proof {
                    assert forall|i: int|
                        0 <= i < seen.len() && (#[trigger] seen[i]).0 == 54 implies side_of(
                        seen[i].1,
                    ) is Some by {
                        if i < before.len() {
                            assert(before[i] == seen[i]);
                        }
                    }
                }
            },
        }
    }
    assert(seen + Seq::<Field>::empty() =~= seen);
    match (order_id, quantity, price, client_id, side) {
        (Some(order_id), Some(quantity), Some(price), Some(client_id), Some(side)) => Ok(
            Order::new(order_id, price, quantity, client_id, side),
        ),
        _ => Err(EngineError::InvalidStateTransition),
    }
}

/// Reads a side: `1` is to buy, `2` to sell.
fn parse_side(value: &[u8]) -> (side: Option<Side>)
    ensures
        side == side_of(value@),
{
    if value.len() != 1 {
        return None;
    }
    let byte: u8 = value[0];
    assert(value@ =~= seq![byte]);
    assert(seq![byte][0] == byte && seq![49u8][0] == 49 && seq![50u8][0] == 50);
    if byte == 49 {
        Some(Side::Buy)
    } else if byte == 50 {
        Some(Side::Sell)
    } else {
        None
    }
}

/// A message with SOH for every `|`.
pub open spec fn with_soh(data: Seq<u8>) -> Seq<u8> {
    Seq::new(
        data.len(),
        |i: int|
            if data[i] == PIPE {
                SOH
            } else {
                data[i]
            },
    )
}

/// The delimiters of a message, `=` included, stay where they are when SOH stands for `|`.
proof fn lemma_with_soh(data: Seq<u8>, start: int)
    requires
        !data.contains(SOH),
        0 <= start <= data.len(),
    ensures
        first_from(with_soh(data), start, EQUALS) == first_from(data, start, EQUALS),
        first_from(with_soh(data), start, SOH) == first_from(data, start, PIPE),
        forall|i: int|
            start <= i < first_from(data, start, PIPE) ==> #[trigger] with_soh(data)[i] == data[i],
    decreases data.len() - start,
{
    if start < data.len() {
        assert(data.contains(data[start]));
        lemma_with_soh(data, start + 1);
    }
}

/// The fields of a message stay the same when SOH stands for `|`.
proof fn lemma_fields_with_soh(data: Seq<u8>, pos: int)
    requires
        !data.contains(SOH),
        0 <= pos <= data.len(),
    ensures
        fields_from(with_soh(data), SOH, pos) == fields_from(data, PIPE, pos),
    decreases data.len() - pos,
{
    let soh = with_soh(data);
    if pos < data.len() {
        lemma_with_soh(data, pos);
        lemma_first_from(data, pos, EQUALS);
        let end = tag_end(data, pos);
        let tag = data.subrange(pos, end);
        let soh_tag = soh.subrange(pos, end);
        if all_digits(tag) || all_digits(soh_tag) {
            assert forall|i: int| 0 <= i < tag.len() implies tag[i] == soh_tag[i] by {
                assert(ZERO <= tag[i] <= NINE || ZERO <= soh_tag[i] <= NINE);
            }
            assert(tag =~= soh_tag);
        }
        if framed(data, pos) {
            lemma_with_soh(data, end + 1);
            lemma_next_pos(data, PIPE, pos);
            assert(value_at(soh, SOH, pos) =~= value_at(data, PIPE, pos));
            lemma_fields_with_soh(data, next_pos(data, PIPE, pos));
        }
    }
}

/// Both delimiters mean the same: a message with `|` between its fields stands for the same order
/// as the message with SOH there.
pub proof fn law_delimiters_agree(data: Seq<u8>)
    requires
        !data.contains(SOH),
    ensures
        message_order(with_soh(data)) == message_order(data),
{
    let soh = with_soh(data);
    lemma_fields_with_soh(data, 0);
    if soh.contains(SOH) {
        assert(delimiter_of(soh) == SOH);
    } else {
        assert(soh =~= data) by {
            assert forall|i: int| 0 <= i < data.len() implies soh[i] == data[i] by {
                assert(soh.contains(soh[i]));
            }
        }
    }
}

/// A byte that is found in a message is found at the same place when a delimiter follows, and one
/// that is not found is the delimiter, or is not found again.
proof fn lemma_first_in_longer(data: Seq<u8>, start: int, byte: u8, delimiter: u8)
    requires
        0 <= start <= data.len(),
    ensures
        first_from(data.push(delimiter), start, byte) == if first_from(data, start, byte)
            == data.len() && byte != delimiter {
            data.len() as int + 1
        } else {
            first_from(data, start, byte)
        },
    decreases data.len() - start,
{
    if start < data.len() {
        lemma_first_in_longer(data, start + 1, byte, delimiter);
    } else {
        reveal_with_fuel(first_from, 2);
    }
}

/// The fields of a message stay the same when a delimiter follows the last of them.
proof fn lemma_fields_of_longer(data: Seq<u8>, delimiter: u8, pos: int)
    requires
        0 <= pos < data.len(),
        delimiter != EQUALS,
        data.last() != delimiter,
    ensures
        fields_from(data.push(delimiter), delimiter, pos) == fields_from(data, delimiter, pos),
    decreases data.len() - pos,
{
    let longer = data.push(delimiter);
    lemma_first_in_longer(data, pos, EQUALS, delimiter);
    lemma_first_from(data, pos, EQUALS);
    if tag_end(data, pos) < data.len() {
        let end = tag_end(data, pos);
        assert(longer.subrange(pos, end) =~= data.subrange(pos, end));
        if framed(data, pos) {
            lemma_first_in_longer(data, end + 1, delimiter, delimiter);
            lemma_next_pos(data, delimiter, pos);
            assert(value_at(longer, delimiter, pos) =~= value_at(data, delimiter, pos));
            if value_end(data, delimiter, pos) < data.len() {
                lemma_found(data, end + 1, delimiter);
                lemma_fields_of_longer(data, delimiter, next_pos(data, delimiter, pos));
            } else {
                reveal_with_fuel(fields_from, 2);
            }
        }
    }
}

/// What is found is there.
pub(crate) proof fn lemma_found(data: Seq<u8>, start: int, byte: u8)
    requires
        0 <= start <= data.len(),
        first_from(data, start, byte) < data.len(),
    ensures
        data[first_from(data, start, byte)] == byte,
    decreases data.len() - start,
{
    if start < data.len() && data[start] != byte {
        lemma_found(data, start + 1, byte);
    }
}

/// The last field needs no delimiter: a message that ends in none has the same fields, and stands
/// for the same order, as the message with its delimiter behind it.
pub proof fn law_last_delimiter_is_optional(data: Seq<u8>)
    requires
        data.len() > 0,
        data.last() != delimiter_of(data),
    ensures
        fields_from(
            data.push(delimiter_of(data)),
            delimiter_of(data.push(delimiter_of(data))),
            0,
        ) == fields_from(data, delimiter_of(data), 0),
        message_order(data.push(delimiter_of(data))) == message_order(data),
{
    let delimiter = delimiter_of(data);
    let longer = data.push(delimiter);
    lemma_fields_of_longer(data, delimiter, 0);
    assert(longer[data.len() as int] == delimiter);
    if data.contains(SOH) {
        let i = choose|i: int| 0 <= i < data.len() && data[i] == SOH;
        assert(longer[i] == SOH);
    } else if longer.contains(SOH) {
        let i = choose|i: int| 0 <= i < longer.len() && longer[i] == SOH;
        assert(i < data.len() ==> data.contains(data[i]));
    }
}

/// The decimal numeral of a number.
pub open spec fn numeral(n: nat) -> Seq<u8>
    decreases n,
{
    if n < 10 {
        seq![(ZERO + n) as u8]
    } else {
        numeral(n / 10).push((ZERO + n % 10) as u8)
    }
}

/// A sequence of `k` zeros, as digits.
pub open spec fn zeros(k: nat) -> Seq<u8> {
    Seq::new(k, |i: int| ZERO)
}

/// A numeral is made of digits, and stands for its number.
proof fn lemma_numeral(n: nat)
    ensures
        numeral(n).len() > 0,
        all_digits(numeral(n)),
        decimal(numeral(n)) == n,
    decreases n,
{
    if n < 10 {
        assert(numeral(n).drop_last() =~= Seq::<u8>::empty());
        assert(decimal(Seq::<u8>::empty()) == 0);
    } else {
        lemma_numeral(n / 10);
        assert(numeral(n).drop_last() =~= numeral(n / 10));
    }
}

/// Leading zeros add nothing.
proof fn lemma_leading_zeros(k: nat, digits: Seq<u8>)
    requires
        all_digits(digits),
    ensures
        all_digits(zeros(k) + digits),
        decimal(zeros(k) + digits) == decimal(digits),
    decreases digits.len(), k,
{
    let longer = zeros(k) + digits;
    if digits.len() > 0 {
        lemma_leading_zeros(k, digits.drop_last());
        assert(longer.drop_last() =~= zeros(k) + digits.drop_last());
    } else if k > 0 {
        lemma_leading_zeros((k - 1) as nat, digits);
        assert(longer.drop_last() =~= zeros((k - 1) as nat) + digits);
    } else {
        assert(longer =~= digits);
    }
}

/// A numeral reads back to its number, whatever zeros lead it.
pub proof fn law_numerals_read_back(n: u64, leading: nat)
    ensures
        number(zeros(leading) + numeral(n as nat)) == n,
{
    lemma_numeral(n as nat);
    lemma_leading_zeros(leading, numeral(n as nat));
}

/// The bytes of a list of fields, each with its delimiter.
pub open spec fn encoded(fields: Seq<Field>, delimiter: u8) -> Seq<u8>
    decreases fields.len(),
{
    if fields.len() == 0 {
        seq![]
    } else {
        numeral(fields[0].0 as nat) + seq![EQUALS] + fields[0].1 + seq![delimiter] + encoded(
            fields.drop_first(),
            delimiter,
        )
    }
}

/// No value holds a byte.
pub open spec fn values_lack(fields: Seq<Field>, byte: u8) -> bool {
    forall|i: int| 0 <= i < fields.len() ==> !(#[trigger] fields[i]).1.contains(byte)
}

/// What is found first is the place before which it is not.
pub(crate) proof fn lemma_first_at(data: Seq<u8>, start: int, byte: u8, at: int)
    requires
        0 <= start <= at < data.len(),
        data[at] == byte,
        forall|i: int| start <= i < at ==> data[i] != byte,
    ensures
        first_from(data, start, byte) == at,
    decreases at - start,
{
    if start < at {
        lemma_first_at(data, start + 1, byte, at);
    }
}

/// Fields behind other bytes read back.
proof fn lemma_encoded(prefix: Seq<u8>, fields: Seq<Field>, delimiter: u8)
    requires
        values_lack(fields, delimiter),
    ensures
        fields_from(prefix + encoded(fields, delimiter), delimiter, prefix.len() as int) == Some(
            fields,
        ),
    decreases fields.len(),
{
    let data = prefix + encoded(fields, delimiter);
    let pos = prefix.len() as int;
    if fields.len() == 0 {
        assert(fields =~= Seq::<Field>::empty());
    } else {
        let (tag, value) = fields[0];
        let rest = fields.drop_first();
        let digits = numeral(tag as nat);
        let end = pos + digits.len();
        let stop = end + 1 + value.len();
        lemma_numeral(tag as nat);
        assert(data.subrange(pos, end) =~= digits);
        assert(data[end] == EQUALS);
        assert forall|i: int| pos <= i < end implies data[i] != EQUALS by {
            assert(data[i] == digits[i - pos]);
        }
        lemma_first_at(data, pos, EQUALS, end);
        assert(data.subrange(end + 1, stop) =~= value);
        assert(data[stop] == delimiter);
        assert forall|i: int| end + 1 <= i < stop implies data[i] != delimiter by {
            assert(data[i] == value[i - end - 1]);
            assert(value.contains(value[i - end - 1]));
        }
        lemma_first_at(data, end + 1, delimiter, stop);
        let longer = prefix + digits + seq![EQUALS] + value + seq![delimiter];
        assert(longer.len() == stop + 1);
        assert(data =~= longer + encoded(rest, delimiter));
        assert forall|i: int| 0 <= i < rest.len() implies !(#[trigger] rest[i]).1.contains(
            delimiter,
        ) by {
            assert(rest[i] == fields[i + 1]);
        }
        lemma_encoded(longer, rest, delimiter);
        assert(seq![(tag, value)] + rest =~= fields);
    }
}

/// Where no value holds a byte, and it is neither a digit nor `=` nor the delimiter, the bytes of
/// the fields do not hold it.
proof fn lemma_encoded_lacks(fields: Seq<Field>, delimiter: u8, byte: u8)
    requires
        values_lack(fields, byte),
        byte != delimiter,
        byte != EQUALS,
        !(ZERO <= byte <= NINE),
    ensures
        !encoded(fields, delimiter).contains(byte),
    decreases fields.len(),
{
    if fields.len() > 0 {
        let (tag, value) = fields[0];
        let rest = fields.drop_first();
        let digits = numeral(tag as nat);
        let data = encoded(fields, delimiter);
        lemma_numeral(tag as nat);
        assert forall|i: int| 0 <= i < rest.len() implies !(#[trigger] rest[i]).1.contains(
            byte,
        ) by {
            assert(rest[i] == fields[i + 1]);
        }
        lemma_encoded_lacks(rest, delimiter, byte);
        assert forall|i: int| 0 <= i < data.len() implies data[i] != byte by {
            let head = digits.len() + 1 + value.len() + 1;
            if i < digits.len() {
                assert(data[i] == digits[i]);
            } else if i == digits.len() {
                assert(data[i] == EQUALS);
            } else if i < head - 1 {
                assert(data[i] == value[i - digits.len() - 1]);
                assert(value.contains(value[i - digits.len() - 1]));
            } else if i == head - 1 {
                assert(data[i] == delimiter);
            } else {
                assert(data[i] == encoded(rest, delimiter)[i - head]);
                assert(encoded(rest, delimiter).contains(encoded(rest, delimiter)[i - head]));
            }
        }
    }
}

/// The message of a list of fields ends in the last value, or in `=`, and the delimiter.
proof fn lemma_encoded_end(fields: Seq<Field>, delimiter: u8)
    requires
        fields.len() > 0,
        delimiter != EQUALS,
        values_lack(fields, delimiter),
    ensures
        encoded(fields, delimiter).len() >= 2,
        encoded(fields, delimiter).last() == delimiter,
        encoded(fields, delimiter).drop_last().last() != delimiter,
    decreases fields.len(),
{
    let data = encoded(fields, delimiter);
    let (tag, value) = fields[0];
    let rest = fields.drop_first();
    let head = numeral(tag as nat) + seq![EQUALS] + value + seq![delimiter];
    lemma_numeral(tag as nat);
    if rest.len() == 0 {
        assert(data =~= head);
        if value.len() > 0 {
            assert(data[data.len() - 2] == value.last());
            assert(value.contains(value.last()));
        } else {
            assert(data[data.len() - 2] == EQUALS);
        }
    } else {
        assert forall|i: int| 0 <= i < rest.len() implies !(#[trigger] rest[i]).1.contains(
            delimiter,
        ) by {
            assert(rest[i] == fields[i + 1]);
        }
        lemma_encoded_end(rest, delimiter);
        assert(data =~= head + encoded(rest, delimiter));
    }
}

/// Encoded fields read back: the message of a list of fields, with either delimiter between them,
/// has those fields, in their order. So has the message without its last delimiter, while that
/// byte is still the delimiter of the message. No value holds the delimiter, nor SOH.
pub proof fn law_fields_read_back(fields: Seq<Field>, delimiter: u8)
    requires
        delimiter == SOH || delimiter == PIPE,
        values_lack(fields, delimiter),
        values_lack(fields, SOH),
    ensures
        fields_from(
            encoded(fields, delimiter),
            delimiter_of(encoded(fields, delimiter)),
            0,
        ) == Some(fields),
        message_order(encoded(fields, delimiter)) == order_of(fields),
        ({
            let shorter = encoded(fields, delimiter).drop_last();
            fields.len() > 0 && delimiter_of(shorter) == delimiter ==> {
                &&& fields_from(shorter, delimiter, 0) == Some(fields)
                &&& message_order(shorter) == order_of(fields)
            }
        }),
{
    let data = encoded(fields, delimiter);
    assert(Seq::<u8>::empty() + data =~= data);
    lemma_encoded(Seq::<u8>::empty(), fields, delimiter);
    if fields.len() == 0 {
        assert(fields =~= Seq::<Field>::empty());
        assert(data.len() == 0);
    } else if delimiter == SOH {
        let at = numeral(fields[0].0 as nat).len() + 1 + fields[0].1.len();
        assert(data[at as int] == SOH);
    } else {
        lemma_encoded_lacks(fields, delimiter, SOH);
    }
    if fields.len() > 0 {
        lemma_encoded_end(fields, delimiter);
        let shorter = data.drop_last();
        assert(shorter.push(delimiter) =~= data);
        if delimiter_of(shorter) == delimiter {
            law_last_delimiter_is_optional(shorter);
        }
    }
}

/// The fields of an order.
pub open spec fn order_fields(order: Order) -> Seq<Field> {
    let side = match order.side {
        Side::Buy => seq![49u8],
        Side::Sell => seq![50u8],
    };
    Seq::<Field>::empty().push((11, numeral(order.order_id as nat))).push(
        (38, numeral(order.quantity as nat)),
    ).push((44, numeral(order.price as nat))).push((49, numeral(order.client_id as nat))).push(
        (54, side),
    )
}

/// An order reads back from the message of its fields, with either delimiter between them.
pub proof fn law_orders_read_back(order: Order, delimiter: u8)
    requires
        delimiter == SOH || delimiter == PIPE,
    ensures
        message_order(encoded(order_fields(order), delimiter)) == Ok::<Order, EngineError>(order),
{
    let fields = order_fields(order);
    let id: Field = (11, numeral(order.order_id as nat));
    let quantity: Field = (38, numeral(order.quantity as nat));
    let price: Field = (44, numeral(order.price as nat));
    let client: Field = (49, numeral(order.client_id as nat));
    let side: Field = fields[4];
    let f1 = Seq::<Field>::empty().push(id);
    let f2 = f1.push(quantity);
    let f3 = f2.push(price);
    let f4 = f3.push(client);
    lemma_numeral(order.order_id as nat);
    lemma_numeral(order.quantity as nat);
    lemma_numeral(order.price as nat);
    lemma_numeral(order.client_id as nat);
    assert forall|tag: u32| #[trigger] last_value(fields, tag) == if tag == 54 {
        Some(side.1)
    } else if tag == 49 {
        Some(client.1)
    } else if tag == 44 {
        Some(price.1)
    } else if tag == 38 {
        Some(quantity.1)
    } else if tag == 11 {
        Some(id.1)
    } else {
        None
    } by {
        lemma_last_value(f4, side, tag);
        lemma_last_value(f3, client, tag);
        lemma_last_value(f2, price, tag);
        lemma_last_value(f1, quantity, tag);
        lemma_last_value(Seq::<Field>::empty(), id, tag);
    }
    assert(seq![49u8][0] != seq![50u8][0]);
    assert(side_of(side.1) == Some(order.side));
    assert(!has_bad_side(fields));
    assert(order_of(fields) == Ok::<Order, EngineError>(order));
    assert forall|i: int, byte: u8|
        0 <= i < fields.len() && !(ZERO <= byte <= NINE) implies !#[trigger] fields[i].1.contains(
        byte,
    ) by {
        if i == 4 {
            assert(side.1.len() == 1);
        }
        assert(all_digits(fields[i].1));
    }
    law_fields_read_back(fields, delimiter);
}

} // verus!
