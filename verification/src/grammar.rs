//! What FIX messages say: how fields are spelled, what numbers and sides they stand for, and what
//! order they make.

use crate::bytes::{byte_range, le_value};
use crate::bytes::lemma_le_value_bound;
use crate::errors::EngineError;
use crate::fix::{all_digits, decimal, delimiter_of, encoded, fields_from, first_from, framed};
use crate::fix::{has_bad_side, last_value, message_order, next_pos, number, order_of, side_of};
use crate::fix::{law_fields_read_back, lemma_first_at, lemma_first_from, lemma_found};
use crate::fix::lemma_next_pos;
use crate::fix::{tag_at, tag_end, value_at, value_end, values_lack, Field};
use crate::model::{Order, Side};
use vstd::arithmetic::power::pow;
use vstd::prelude::*;

verus! {

/// Place `i` holds the last field of a tag.
spec fn is_last(fields: Seq<Field>, tag: u32, i: int) -> bool {
    &&& 0 <= i < fields.len()
    &&& fields[i].0 == tag
    &&& forall|j: int| i < j < fields.len() ==> (#[trigger] fields[j]).0 != tag
}

/// Some field has a tag.
pub open spec fn has_tag(fields: Seq<Field>, tag: u32) -> bool {
    exists|i: int| 0 <= i < fields.len() && (#[trigger] fields[i]).0 == tag
}

/// The last value of a tag is that of its last field.
proof fn lemma_last_value(fields: Seq<Field>, tag: u32)
    ensures
        last_value(fields, tag) is Some <==> has_tag(fields, tag),
        forall|i: int| #[trigger]
            is_last(fields, tag, i) ==> last_value(fields, tag) == Some(fields[i].1),
    decreases fields.len(),
{
    if fields.len() > 0 {
        let rest = fields.drop_last();
        lemma_last_value(rest, tag);
        if fields.last().0 == tag {
            assert(fields[fields.len() - 1].0 == tag);
            assert forall|i: int| #[trigger] is_last(fields, tag, i) implies last_value(fields, tag)
                == Some(fields[i].1) by {
                if i < fields.len() - 1 {
                    assert(fields[fields.len() - 1].0 != tag);
                }
            }
        } else {
            if has_tag(rest, tag) {
                let i = choose|i: int| 0 <= i < rest.len() && (#[trigger] rest[i]).0 == tag;
                assert(fields[i].0 == tag);
            }
            if has_tag(fields, tag) {
                let i = choose|i: int| 0 <= i < fields.len() && (#[trigger] fields[i]).0 == tag;
                assert(rest[i].0 == tag);
            }
            assert forall|i: int| #[trigger] is_last(fields, tag, i) implies last_value(fields, tag)
                == Some(fields[i].1) by {
                assert forall|j: int| i < j < rest.len() implies (#[trigger] rest[j]).0 != tag by {
                    assert(fields[j].0 != tag);
                }
                assert(is_last(rest, tag, i));
            }
        }
    }
}

/// A side is `1` or `2`, alone.
proof fn lemma_side(value: Seq<u8>)
    ensures
        side_of(value) == if value.len() == 1 && value[0] == 49 {
            Some(Side::Buy)
        } else if value.len() == 1 && value[0] == 50 {
            Some(Side::Sell)
        } else {
            None
        },
{
    assert(seq![49u8].len() == 1 && seq![49u8][0] == 49);
    assert(seq![50u8].len() == 1 && seq![50u8][0] == 50);
    if value.len() == 1 {
        assert(value =~= seq![value[0]]);
    }
}

/// The order of a message has the number of the last value of each of its tags: 11 for the
/// identifier, 38 for the quantity, 44 for the price and 49 for the client. The side is that of
/// the last value of tag 54.
pub proof fn law_orders_have_the_last_values(
    fields: Seq<Field>,
    id: int,
    quantity: int,
    price: int,
    client: int,
    side: int,
)
    requires
        0 <= id < fields.len() && fields[id].0 == 11,
        forall|j: int| id < j < fields.len() ==> (#[trigger] fields[j]).0 != 11,
        0 <= quantity < fields.len() && fields[quantity].0 == 38,
        forall|j: int| quantity < j < fields.len() ==> (#[trigger] fields[j]).0 != 38,
        0 <= price < fields.len() && fields[price].0 == 44,
        forall|j: int| price < j < fields.len() ==> (#[trigger] fields[j]).0 != 44,
        0 <= client < fields.len() && fields[client].0 == 49,
        forall|j: int| client < j < fields.len() ==> (#[trigger] fields[j]).0 != 49,
        0 <= side < fields.len() && fields[side].0 == 54,
        forall|j: int| side < j < fields.len() ==> (#[trigger] fields[j]).0 != 54,
        forall|i: int|
            0 <= i < fields.len() && (#[trigger] fields[i]).0 == 54 ==> fields[i].1.len() == 1 && (
            fields[i].1[0] == 49 || fields[i].1[0] == 50),
    ensures
        order_of(fields) == Ok::<Order, EngineError>(
            Order {
                order_id: number(fields[id].1),
                price: number(fields[price].1),
                quantity: number(fields[quantity].1),
                client_id: number(fields[client].1),
                side: if fields[side].1[0] == 49 {
                    Side::Buy
                } else {
                    Side::Sell
                },
            },
        ),
{
    lemma_last_value(fields, 11);
    lemma_last_value(fields, 38);
    lemma_last_value(fields, 44);
    lemma_last_value(fields, 49);
    lemma_last_value(fields, 54);
    assert(is_last(fields, 11, id));
    assert(is_last(fields, 38, quantity));
    assert(is_last(fields, 44, price));
    assert(is_last(fields, 49, client));
    assert(is_last(fields, 54, side));
    assert forall|i: int| 0 <= i < fields.len() && (#[trigger] fields[i]).0 == 54 implies side_of(
        fields[i].1,
    ) is Some by {
        lemma_side(fields[i].1);
    }
    lemma_side(fields[side].1);
}

/// Fields make no order exactly where a side is neither `1` nor `2`, which is an invalid side, or
/// where otherwise one of the five tags is missing.
pub proof fn law_orders_need_five_tags(fields: Seq<Field>)
    ensures
        ({
            let bad_side = exists|i: int|
                0 <= i < fields.len() && (#[trigger] fields[i]).0 == 54 && !(fields[i].1.len() == 1
                    && (fields[i].1[0] == 49 || fields[i].1[0] == 50));
            let complete = has_tag(fields, 11) && has_tag(fields, 38) && has_tag(fields, 44)
                && has_tag(fields, 49) && has_tag(fields, 54);
            &&& order_of(fields) == Err::<Order, EngineError>(EngineError::InvalidSide) <==> bad_side
            &&& order_of(fields) == Err::<Order, EngineError>(EngineError::InvalidStateTransition)
                <==> !bad_side && !complete
            &&& order_of(fields) is Ok <==> !bad_side && complete
        }),
{
    lemma_last_value(fields, 11);
    lemma_last_value(fields, 38);
    lemma_last_value(fields, 44);
    lemma_last_value(fields, 49);
    lemma_last_value(fields, 54);
    assert forall|i: int| 0 <= i < fields.len() && (#[trigger] fields[i]).0 == 54 implies (side_of(
        fields[i].1,
    ) is None) == !(fields[i].1.len() == 1 && (fields[i].1[0] == 49 || fields[i].1[0] == 50)) by {
        lemma_side(fields[i].1);
    }
    if has_bad_side(fields) {
        let i = choose|i: int|
            0 <= i < fields.len() && (#[trigger] fields[i]).0 == 54 && side_of(fields[i].1) is None;
        assert(fields[i].0 == 54);
    }
}

/// A field whose tag an order has.
pub open spec fn counts() -> spec_fn(Field) -> bool {
    |field: Field|
        field.0 == 11 || field.0 == 38 || field.0 == 44 || field.0 == 49 || field.0 == 54
}

/// The last value of a tag that counts is that among the fields that count.
proof fn lemma_kept_value(fields: Seq<Field>, tag: u32)
    requires
        tag == 11 || tag == 38 || tag == 44 || tag == 49 || tag == 54,
    ensures
        last_value(fields.filter(counts()), tag) == last_value(fields, tag),
    decreases fields.len(),
{
    reveal(Seq::filter);
    if fields.len() > 0 {
        let rest = fields.drop_last();
        lemma_kept_value(rest, tag);
        if counts()(fields.last()) {
            let kept = rest.filter(counts());
            assert(kept.push(fields.last()).drop_last() =~= kept);
        }
    }
}

/// A bad side is one among the fields that count.
proof fn lemma_kept_side(fields: Seq<Field>)
    ensures
        has_bad_side(fields.filter(counts())) == has_bad_side(fields),
    decreases fields.len(),
{
    reveal(Seq::filter);
    if fields.len() > 0 {
        let rest = fields.drop_last();
        let last = fields.last();
        let kept = rest.filter(counts());
        let all = fields.filter(counts());
        lemma_kept_side(rest);
        assert(fields[fields.len() - 1] == last);
        if has_bad_side(rest) {
            let i = choose|i: int|
                0 <= i < rest.len() && (#[trigger] rest[i]).0 == 54 && side_of(rest[i].1) is None;
            assert(fields[i] == rest[i]);
            let j = choose|j: int|
                0 <= j < kept.len() && (#[trigger] kept[j]).0 == 54 && side_of(kept[j].1) is None;
            assert(all[j] == kept[j]);
        } else if last.0 == 54 && side_of(last.1) is None {
            assert(counts()(last));
            assert(all[kept.len() as int] == last);
        } else {
            assert forall|i: int| 0 <= i < fields.len() && (#[trigger] fields[i]).0
                == 54 implies side_of(fields[i].1) is Some by {
                if i < rest.len() {
                    assert(rest[i] == fields[i]);
                }
            }
            assert forall|i: int| 0 <= i < all.len() && (#[trigger] all[i]).0
                == 54 implies side_of(all[i].1) is Some by {
                if i < kept.len() {
                    assert(kept[i] == all[i]);
                }
            }
        }
    }
}

/// Fields of other tags change nothing: the fields that are left when they are taken out make the
/// same order.
pub proof fn law_other_tags_are_ignored(fields: Seq<Field>)
    ensures
        order_of(
            fields.filter(
                |field: Field|
                    field.0 == 11 || field.0 == 38 || field.0 == 44 || field.0 == 49 || field.0
                        == 54,
            ),
        ) == order_of(fields),
{
    let inline = |field: Field|
        field.0 == 11 || field.0 == 38 || field.0 == 44 || field.0 == 49 || field.0 == 54;
    assert(inline =~= counts());
    lemma_kept_value(fields, 11);
    lemma_kept_value(fields, 38);
    lemma_kept_value(fields, 44);
    lemma_kept_value(fields, 49);
    lemma_kept_value(fields, 54);
    lemma_kept_side(fields);
}

/// A message that holds each of the five tags once, among any others and in any order, stands for
/// the order that has the values of those five fields.
pub proof fn law_messages_make_their_order(
    fields: Seq<Field>,
    delimiter: u8,
    id: int,
    quantity: int,
    price: int,
    client: int,
    side: int,
)
    requires
        delimiter == 1 || delimiter == 124,
        values_lack(fields, delimiter),
        values_lack(fields, 1),
        0 <= id < fields.len(),
        0 <= quantity < fields.len(),
        0 <= price < fields.len(),
        0 <= client < fields.len(),
        0 <= side < fields.len(),
        forall|i: int| 0 <= i < fields.len() ==> ((#[trigger] fields[i]).0 == 11 <==> i == id),
        forall|i: int| 0 <= i < fields.len() ==> ((#[trigger] fields[i]).0 == 38 <==> i == quantity),
        forall|i: int| 0 <= i < fields.len() ==> ((#[trigger] fields[i]).0 == 44 <==> i == price),
        forall|i: int| 0 <= i < fields.len() ==> ((#[trigger] fields[i]).0 == 49 <==> i == client),
        forall|i: int| 0 <= i < fields.len() ==> ((#[trigger] fields[i]).0 == 54 <==> i == side),
        fields[side].1 == seq![49u8] || fields[side].1 == seq![50u8],
    ensures
        message_order(encoded(fields, delimiter)) == Ok::<Order, EngineError>(
            Order {
                order_id: number(fields[id].1),
                price: number(fields[price].1),
                quantity: number(fields[quantity].1),
                client_id: number(fields[client].1),
                side: if fields[side].1 == seq![49u8] {
                    Side::Buy
                } else {
                    Side::Sell
                },
            },
        ),
{
    assert(seq![49u8][0] == 49 && seq![50u8][0] == 50);
    law_orders_have_the_last_values(fields, id, quantity, price, client, side);
    law_fields_read_back(fields, delimiter);
}

/// A numeral with one more digit stands for ten times as much, and the digit. The empty numeral
/// stands for nothing.
pub proof fn law_digits_count_by_tens(digits: Seq<u8>, digit: u8)
    requires
        48 <= digit <= 57,
    ensures
        decimal(Seq::<u8>::empty()) == 0,
        decimal(digits.push(digit)) == 10 * decimal(digits) + (digit - 48),
{
    assert(digits.push(digit).drop_last() =~= digits);
}

/// A value of digits, and no other, is read as a numeral, of which the lowest 64 bits count.
pub proof fn law_numerals_are_decimal(bytes: Seq<u8>)
    requires
        forall|i: int| 0 <= i < bytes.len() ==> 48 <= #[trigger] bytes[i] <= 57,
    ensures
        number(bytes) == decimal(bytes) % 0x1_0000_0000_0000_0000,
{
    assert(all_digits(bytes));
}

/// Byte `i` of a little-endian value.
pub(crate) proof fn lemma_byte(bytes: Seq<u8>, i: int)
    requires
        0 <= i < bytes.len(),
    ensures
        (le_value(bytes) as int / pow(256, i as nat)) % 256 == bytes[i],
    decreases bytes.len(),
{
    let rest = bytes.drop_first();
    let value = le_value(bytes) as int;
    let high = le_value(rest) as int;
    if i == 0 {
        vstd::arithmetic::power::lemma_pow0(256);
        assert(value == bytes[0] + 256 * high);
    } else {
        lemma_byte(rest, i - 1);
        let p = pow(256, (i - 1) as nat);
        assert(pow(256, i as nat) == 256 * p) by {
            reveal(pow);
        }
        vstd::arithmetic::power::lemma_pow_positive(256, (i - 1) as nat);
        vstd::arithmetic::div_mod::lemma_div_denominator(value, 256, p);
        assert(value / 256 == high);
    }
}

/// Bytes past the end of a little-endian value are zero.
proof fn lemma_byte_past(bytes: Seq<u8>, i: nat)
    requires
        bytes.len() <= i,
    ensures
        (le_value(bytes) as int / pow(256, i)) % 256 == 0,
    decreases bytes.len(), i,
{
    lemma_le_value_bound(bytes);
    lemma_range_is_power(bytes.len());
    vstd::arithmetic::power::lemma_pow_increases(256, bytes.len(), i);
    vstd::arithmetic::div_mod::lemma_basic_div(le_value(bytes) as int, pow(256, i));
}

/// The number of values of `n` bytes is a power.
proof fn lemma_range_is_power(n: nat)
    ensures
        byte_range(n) == pow(256, n),
    decreases n,
{
    reveal(pow);
    if n > 0 {
        lemma_range_is_power((n - 1) as nat);
    }
}

/// A value that is no numeral is read byte by byte: byte `i` of the number, from the lowest, is
/// byte `i` of the value, and zero where the value has ended. Bytes past the eighth do not count.
pub proof fn law_other_values_are_read_bytewise(bytes: Seq<u8>, i: int)
    requires
        exists|j: int| 0 <= j < bytes.len() && !(48 <= #[trigger] bytes[j] <= 57),
        0 <= i < 8,
    ensures
        (number(bytes) as int / pow(256, i as nat)) % 256 == if i < bytes.len() {
            bytes[i] as int
        } else {
            0
        },
{
    let first = if bytes.len() < 8 {
        bytes
    } else {
        bytes.take(8)
    };
    assert(!all_digits(bytes)) by {
        let j = choose|j: int| 0 <= j < bytes.len() && !(48 <= #[trigger] bytes[j] <= 57);
        assert(!(48 <= bytes[j] <= 57));
    }
    crate::bytes::lemma_byte_ranges();
    lemma_le_value_bound(first);
    crate::bytes::lemma_byte_range_grows(first.len(), 8);
    assert(number(bytes) == le_value(first));
    if i < bytes.len() {
        lemma_byte(first, i);
    } else {
        lemma_byte_past(first, i as nat);
    }
}

/// A field as it is spelled: the digits of its tag, and its value.
pub type Spelling = (Seq<u8>, Seq<u8>);

/// The bytes of a list of spelled fields, each with its delimiter.
pub open spec fn spelled(spellings: Seq<Spelling>, delimiter: u8) -> Seq<u8>
    decreases spellings.len(),
{
    if spellings.len() == 0 {
        seq![]
    } else {
        spellings[0].0 + seq![61u8] + spellings[0].1 + seq![delimiter] + spelled(
            spellings.drop_first(),
            delimiter,
        )
    }
}

/// The tags are digits, and no value holds the delimiter.
pub open spec fn well_spelled(spellings: Seq<Spelling>, delimiter: u8) -> bool {
    forall|i: int|
        0 <= i < spellings.len() ==> {
            &&& forall|j: int|
                0 <= j < spellings[i].0.len() ==> 48 <= #[trigger] spellings[i].0[j] <= 57
            &&& !(#[trigger] spellings[i]).1.contains(delimiter)
        }
}

/// The fields that are spelled.
pub open spec fn fields_of(spellings: Seq<Spelling>) -> Seq<Field> {
    Seq::new(
        spellings.len(),
        |i: int| ((decimal(spellings[i].0) % 0x1_0000_0000) as u32, spellings[i].1),
    )
}

/// The rest of a well-spelled list is well spelled.
proof fn lemma_rest_spelled(spellings: Seq<Spelling>, delimiter: u8)
    requires
        spellings.len() > 0,
        well_spelled(spellings, delimiter),
    ensures
        well_spelled(spellings.drop_first(), delimiter),
        all_digits(spellings[0].0),
        !spellings[0].1.contains(delimiter),
        fields_of(spellings) == seq![fields_of(spellings)[0]] + fields_of(spellings.drop_first()),
{
    let rest = spellings.drop_first();
    assert forall|i: int| 0 <= i < rest.len() implies {
        &&& forall|j: int| 0 <= j < rest[i].0.len() ==> 48 <= #[trigger] rest[i].0[j] <= 57
        &&& !(#[trigger] rest[i]).1.contains(delimiter)
    } by {
        assert(rest[i] == spellings[i + 1]);
        assert(!spellings[i + 1].1.contains(delimiter));
    }
    assert(!spellings[0].1.contains(delimiter));
    assert(fields_of(spellings) =~= seq![fields_of(spellings)[0]] + fields_of(rest));
}

/// Spelled fields behind other bytes are read.
proof fn lemma_spelled(prefix: Seq<u8>, spellings: Seq<Spelling>, delimiter: u8)
    requires
        well_spelled(spellings, delimiter),
    ensures
        fields_from(prefix + spelled(spellings, delimiter), delimiter, prefix.len() as int) == Some(
            fields_of(spellings),
        ),
    decreases spellings.len(),
{
    let data = prefix + spelled(spellings, delimiter);
    let pos = prefix.len() as int;
    if spellings.len() == 0 {
        assert(fields_of(spellings) =~= Seq::<Field>::empty());
    } else {
        let (tag, value) = spellings[0];
        let rest = spellings.drop_first();
        let end = pos + tag.len();
        let stop = end + 1 + value.len();
        lemma_rest_spelled(spellings, delimiter);
        assert(data.subrange(pos, end) =~= tag);
        assert(data[end] == 61);
        assert forall|i: int| pos <= i < end implies data[i] != 61 by {
            assert(data[i] == tag[i - pos]);
        }
        lemma_first_at(data, pos, 61, end);
        assert(data.subrange(end + 1, stop) =~= value);
        assert(data[stop] == delimiter);
        assert forall|i: int| end + 1 <= i < stop implies data[i] != delimiter by {
            assert(data[i] == value[i - end - 1]);
            assert(value.contains(value[i - end - 1]));
        }
        lemma_first_at(data, end + 1, delimiter, stop);
        let longer = prefix + tag + seq![61u8] + value + seq![delimiter];
        assert(longer.len() == stop + 1);
        assert(data =~= longer + spelled(rest, delimiter));
        lemma_spelled(longer, rest, delimiter);
    }
}

/// Spelled fields are read, from wherever they start: each tag is the lowest 32 bits of its
/// numeral, whatever its spelling, and each value is what stands between `=` and the delimiter.
pub proof fn law_spelled_fields_are_read(
    prefix: Seq<u8>,
    spellings: Seq<Spelling>,
    delimiter: u8,
)
    requires
        well_spelled(spellings, delimiter),
    ensures
        fields_from(prefix + spelled(spellings, delimiter), delimiter, prefix.len() as int) == Some(
            fields_of(spellings),
        ),
{
    lemma_spelled(prefix, spellings, delimiter);
}

/// The next field ends at the next delimiter: its tag is what stands before `=`, its value what
/// stands between `=` and the delimiter, and the field after it starts behind that.
pub proof fn law_a_field_ends_at_its_delimiter(
    prefix: Seq<u8>,
    digits: Seq<u8>,
    value: Seq<u8>,
    rest: Seq<u8>,
    delimiter: u8,
)
    requires
        forall|i: int| 0 <= i < digits.len() ==> 48 <= #[trigger] digits[i] <= 57,
        !value.contains(delimiter),
    ensures
        ({
            let data = prefix + digits + seq![61u8] + value + seq![delimiter] + rest;
            let pos = prefix.len() as int;
            &&& framed(data, pos)
            &&& tag_at(data, pos) == decimal(digits) % 0x1_0000_0000
            &&& value_at(data, delimiter, pos) == value
            &&& next_pos(data, delimiter, pos) == pos + digits.len() + 1 + value.len() + 1
        }),
{
    let data = prefix + digits + seq![61u8] + value + seq![delimiter] + rest;
    let pos = prefix.len() as int;
    let end = pos + digits.len();
    let stop = end + 1 + value.len();
    assert(data.subrange(pos, end) =~= digits);
    assert(data[end] == 61);
    assert forall|i: int| pos <= i < end implies data[i] != 61 by {
        assert(data[i] == digits[i - pos]);
    }
    lemma_first_at(data, pos, 61, end);
    assert(data.subrange(end + 1, stop) =~= value);
    assert(data[stop] == delimiter);
    assert forall|i: int| end + 1 <= i < stop implies data[i] != delimiter by {
        assert(data[i] == value[i - end - 1]);
        assert(value.contains(value[i - end - 1]));
    }
    lemma_first_at(data, end + 1, delimiter, stop);
}

/// A field is well formed exactly where an `=` comes, with nothing but digits before it.
pub proof fn law_fields_have_a_numeral_and_equals(data: Seq<u8>, pos: int)
    requires
        0 <= pos < data.len(),
    ensures
        framed(data, pos) <==> exists|e: int|
            #![trigger data[e]]
            pos <= e < data.len() && data[e] == 61 && forall|i: int|
                pos <= i < e ==> 48 <= #[trigger] data[i] <= 57,
{
    lemma_first_from(data, pos, 61);
    let end = tag_end(data, pos);
    let tag = data.subrange(pos, end);
    if framed(data, pos) {
        lemma_found(data, pos, 61);
        assert forall|i: int| pos <= i < end implies 48 <= #[trigger] data[i] <= 57 by {
            assert(tag[i - pos] == data[i]);
        }
        assert(data[end] == 61);
    }
    if exists|e: int|
        #![trigger data[e]]
        pos <= e < data.len() && data[e] == 61 && forall|i: int|
            pos <= i < e ==> 48 <= #[trigger] data[i] <= 57 {
        let e = choose|e: int|
            #![trigger data[e]]
            pos <= e < data.len() && data[e] == 61 && forall|i: int|
                pos <= i < e ==> 48 <= #[trigger] data[i] <= 57;
        lemma_first_at(data, pos, 61, e);
        assert forall|i: int| 0 <= i < tag.len() implies 48 <= #[trigger] tag[i] <= 57 by {
            assert(tag[i] == data[pos + i]);
        }
    }
}

/// What is found is found nowhere before.
proof fn lemma_none_before(data: Seq<u8>, start: int, byte: u8)
    requires
        0 <= start <= data.len(),
    ensures
        forall|i: int| start <= i < first_from(data, start, byte) ==> data[i] != byte,
    decreases data.len() - start,
{
    if start < data.len() && data[start] != byte {
        lemma_none_before(data, start + 1, byte);
    }
}

/// The spelling of the fields that are read from `pos` on.
proof fn lemma_read_fields_are_spelled(data: Seq<u8>, delimiter: u8, pos: int) -> (spellings: Seq<
    Spelling,
>)
    requires
        0 <= pos <= data.len(),
        fields_from(data, delimiter, pos) is Some,
    ensures
        well_spelled(spellings, delimiter),
        fields_of(spellings) == fields_from(data, delimiter, pos)->0,
        data.skip(pos) == spelled(spellings, delimiter) || data.skip(pos).push(delimiter)
            == spelled(spellings, delimiter),
    decreases data.len() - pos,
{
    if pos == data.len() {
        let none = Seq::<Spelling>::empty();
        assert(fields_of(none) =~= Seq::<Field>::empty());
        assert(data.skip(pos) =~= spelled(none, delimiter));
        none
    } else {
        lemma_next_pos(data, delimiter, pos);
        let end = tag_end(data, pos);
        let stop = value_end(data, delimiter, pos);
        let next = next_pos(data, delimiter, pos);
        let tag = data.subrange(pos, end);
        let value = value_at(data, delimiter, pos);
        let rest = lemma_read_fields_are_spelled(data, delimiter, next);
        let spellings = seq![(tag, value)] + rest;
        assert(spellings.drop_first() =~= rest);
        lemma_found(data, pos, 61);
        lemma_none_before(data, end + 1, delimiter);
        assert(!value.contains(delimiter)) by {
            if value.contains(delimiter) {
                let i = choose|i: int| 0 <= i < value.len() && value[i] == delimiter;
                assert(data[end + 1 + i] == delimiter);
            }
        }
        assert forall|i: int| 0 <= i < spellings.len() implies {
            &&& forall|j: int|
                0 <= j < spellings[i].0.len() ==> 48 <= #[trigger] spellings[i].0[j] <= 57
            &&& !(#[trigger] spellings[i]).1.contains(delimiter)
        } by {
            if i > 0 {
                assert(spellings[i] == rest[i - 1]);
                assert(!rest[i - 1].1.contains(delimiter));
            }
        }
        assert(fields_of(spellings) =~= seq![(tag_at(data, pos), value)] + fields_of(rest));
        let head = tag + seq![61u8] + value + seq![delimiter];
        if stop < data.len() {
            lemma_found(data, end + 1, delimiter);
            assert(data.skip(pos) =~= head + data.skip(next));
            assert(data.skip(pos).push(delimiter) =~= head + data.skip(next).push(delimiter));
        } else {
            assert(rest.len() == 0) by {
                assert(fields_of(rest).len() == 0);
            }
            assert(spelled(rest, delimiter) =~= Seq::<u8>::empty());
            assert(data.skip(pos).push(delimiter) =~= head);
            assert(spelled(spellings, delimiter) =~= head);
        }
        spellings
    }
}

/// Only spelled fields are read: a message that has fields is the spelling of those fields, but
/// that its last delimiter may be missing. Any other message is malformed.
pub proof fn law_read_fields_are_spelled(data: Seq<u8>, delimiter: u8)
    requires
        fields_from(data, delimiter, 0) is Some,
    ensures
        exists|spellings: Seq<Spelling>| #[trigger]
            well_spelled(spellings, delimiter) && fields_of(spellings) == fields_from(
                data,
                delimiter,
                0,
            )->0 && (data == spelled(spellings, delimiter) || data.push(delimiter) == spelled(
                spellings,
                delimiter,
            )),
{
    let spellings = lemma_read_fields_are_spelled(data, delimiter, 0);
    assert(data.skip(0) =~= data);
    assert(well_spelled(spellings, delimiter));
}

/// A message stands for the order that its fields make, read with SOH between them where the
/// message holds one and with `|` where it does not. A malformed message is refused as an invalid
/// side.
pub proof fn law_messages_are_read_by_their_delimiter(data: Seq<u8>)
    ensures
        data.contains(1u8) ==> delimiter_of(data) == 1,
        !data.contains(1u8) ==> delimiter_of(data) == 124,
        fields_from(data, delimiter_of(data), 0) is None ==> message_order(data) == Err::<
            Order,
            EngineError,
        >(EngineError::InvalidSide),
        fields_from(data, delimiter_of(data), 0) matches Some(fields) ==> message_order(data)
            == order_of(fields),
{
}

} // verus!
