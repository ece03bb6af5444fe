//! What holds of the encoder and the decoder together.

use vstd::prelude::*;
use vstd::utf8::{
    decode_utf8, decode_utf8_encode_utf8, encode_utf8, encode_utf8_decode_utf8, encode_utf8_valid_utf8, valid_utf8,
};
use crate::de::{
    access_step, argument_after, length_after, negative_token, string_of, text_of, token_of, Deserializer,
    DeserializerOptions, Fault, Token, RECURSION_LIMIT,
};
use crate::error::{Error, ErrorCode, ExpectedSet};
use crate::read::Read;
use crate::ser::{float_bytes, integer_head, integer_in_range, Float};
use crate::value::{
    array_of, document_of, entries_chunks, entries_of, item_after, item_bytes, item_chunks, item_of, items_chunks,
    items_of, lemma_item_takes, lemma_pair_takes, lemma_string_takes, lemma_token_takes, map_of, pair_of,
    valid_behind_tag, Item, Setup,
};
use crate::wire::{
    be_bytes, head_bytes, info_for, info_of, lemma_be_bytes_len, lemma_be_round_trip, lemma_initial_byte_parts,
    lemma_pow256_values, major_of, min_width,
};
use crate::write::concat;

verus! {

/// Laying chunks end to end goes list by list.
pub proof fn lemma_concat_append(first: Seq<Seq<u8>>, second: Seq<Seq<u8>>)
    ensures
        concat(first + second) == concat(first) + concat(second),
    decreases first.len(),
{
    if first.len() == 0 {
        assert(first + second =~= second);
        assert(concat(first) + concat(second) =~= concat(second));
    } else {
        let both = first + second;
        assert(both[0] == first[0]);
        assert(both.drop_first() =~= first.drop_first() + second);
        lemma_concat_append(first.drop_first(), second);
        assert(first[0] + (concat(first.drop_first()) + concat(second)) =~= (first[0] + concat(
            first.drop_first(),
        )) + concat(second));
    }
}

/// One chunk laid end to end is the chunk.
pub proof fn lemma_concat_one(chunk: Seq<u8>)
    ensures
        concat(seq![chunk]) == chunk,
{
    let chunks = seq![chunk];
    assert(chunks[0] == chunk);
    assert(chunks.drop_first() =~= Seq::<Seq<u8>>::empty());
    assert(concat(chunks.drop_first()) =~= Seq::<u8>::empty());
    assert(chunk + Seq::<u8>::empty() =~= chunk);
}

/// A head that the encoder wrote, with anything behind it, is read back
/// as it was meant: the initial byte bears the major type, the argument is
/// the value, and what was behind the head is what is left.
pub proof fn lemma_head_round_trip(major: u8, value: u64, rest: Seq<u8>)
    requires
        major <= 7,
    ensures
        ({
            let head = head_bytes(major, value);
            let bytes = head + rest;
            let width = min_width(value);
            &&& head.len() == 1 + width
            &&& bytes[0] == major * 32 + info_for(value, width)
            &&& major_of(bytes[0]) == major
            &&& info_of(bytes[0]) == info_for(value, width)
            &&& info_of(bytes[0]) <= 27
            &&& argument_after(bytes[0], bytes.skip(1)) == Ok::<(u64, nat), Fault>((value, width))
            &&& bytes.skip((1 + width) as int) == rest
        }),
{
    let head = head_bytes(major, value);
    let bytes = head + rest;
    let width = min_width(value);
    let info = info_for(value, width);
    lemma_pow256_values();
    lemma_be_bytes_len(value as nat, width);
    lemma_initial_byte_parts(major, info);
    assert(bytes[0] == head[0]);
    assert(bytes.skip((1 + width) as int) =~= rest);
    if width > 0 {
        lemma_be_round_trip(value, width);
        assert(bytes.skip(1).take(width as int) =~= be_bytes(value as nat, width));
    }
}

/// What the head of major type `major` with the argument `value` says.
pub open spec fn token_for(major: u8, value: u64) -> Token
    recommends
        major <= 6,
{
    if major == 0 {
        Token::Unsigned(value)
    } else if major == 1 {
        negative_token(value)
    } else if major == 2 {
        Token::BytesStart(Some(value as usize))
    } else if major == 3 {
        Token::TextStart(Some(value as usize))
    } else if major == 4 {
        Token::ArrayStart(Some(value as usize))
    } else if major == 5 {
        Token::MapStart(Some(value as usize))
    } else {
        Token::Tag(value)
    }
}

/// A head that the encoder wrote is read back as what it was written for,
/// and takes as many bytes as were written.
pub proof fn lemma_token_round_trip(major: u8, value: u64, rest: Seq<u8>)
    requires
        major <= 6,
        2 <= major <= 5 ==> value <= usize::MAX,
    ensures
        token_of(head_bytes(major, value) + rest, ExpectedSet::spec_all()) == Ok::<(Token, nat), Fault>(
            (token_for(major, value), head_bytes(major, value).len()),
        ),
        (head_bytes(major, value) + rest).skip(head_bytes(major, value).len() as int) == rest,
        head_bytes(major, value).len() >= 1,
{
    lemma_head_round_trip(major, value, rest);
    let bytes = head_bytes(major, value) + rest;
    let byte = bytes[0];
    let width = min_width(value);
    assert(byte == major * 32 + info_for(value, width));
    assert(ExpectedSet::spec_all().allows(byte));
    if 2 <= major <= 5 {
        assert(length_after(byte, bytes.skip(1)) == Ok::<(Option<usize>, nat), Fault>(
            (Some(value as usize), width),
        ));
    }
}

/// A float that the encoder wrote is read back as it was.
pub proof fn lemma_float_round_trip(value: Float, rest: Seq<u8>)
    ensures
        token_of(float_bytes(value) + rest, ExpectedSet::spec_all()) == Ok::<(Token, nat), Fault>(
            (Token::Float(value), float_bytes(value).len()),
        ),
        (float_bytes(value) + rest).skip(float_bytes(value).len() as int) == rest,
        float_bytes(value).len() >= 1,
{
    let bytes = float_bytes(value) + rest;
    lemma_pow256_values();
    match value {
        Float::Half(bits) => {
            lemma_be_bytes_len(bits as nat, 2);
            lemma_be_round_trip(bits as u64, 2);
            assert(bytes[0] == 0xf9);
            assert(bytes.skip(1).take(2) =~= be_bytes(bits as nat, 2));
            assert(bytes.skip(3) =~= rest);
        },
        Float::Single(bits) => {
            lemma_be_bytes_len(bits as nat, 4);
            lemma_be_round_trip(bits as u64, 4);
            assert(bytes[0] == 0xfa);
            assert(bytes.skip(1).take(4) =~= be_bytes(bits as nat, 4));
            assert(bytes.skip(5) =~= rest);
        },
        Float::Double(bits) => {
            lemma_be_bytes_len(bits as nat, 8);
            lemma_be_round_trip(bits, 8);
            assert(bytes[0] == 0xfb);
            assert(bytes.skip(1).take(8) =~= be_bytes(bits as nat, 8));
            assert(bytes.skip(9) =~= rest);
        },
    }
}

/// Whether the round trip of `item` through a decoder that has `depth`
/// levels left and is set up as `s` can succeed: the item has an encoding,
/// its lengths can be addressed, it is nested no deeper than the decoder
/// goes, its tags are kept if it has any, and its strings go through no
/// bounded buffer.
pub open spec fn round_trips(item: Item, depth: nat, s: Setup) -> bool {
    &&& item.encodable()
    &&& item.sized()
    &&& depth >= 1
    &&& item.within((depth - 1) as nat)
    &&& s.keep_tags || item.tagless()
    &&& s.direct || s.limit is None
}

/// Decoding what the encoder wrote for an item gives the item back, and
/// takes exactly what was written, whatever follows it in the input.
pub proof fn lemma_item_round_trip(item: Item, rest: Seq<u8>, depth: nat, s: Setup)
    requires
        round_trips(item, depth, s),
    ensures
        item_of(item_bytes(item) + rest, ExpectedSet::spec_all(), depth, s) == Ok::<(Item, nat), Fault>(
            (item, item_bytes(item).len()),
        ),
        item_bytes(item).len() >= 1,
    decreases item, 0nat,
{
    match item {
        Item::Array(items) => {
            lemma_array_round_trip(items, rest, depth, s);
        },
        Item::Mapping(entries) => {
            lemma_mapping_round_trip(entries, rest, depth, s);
        },
        Item::Tag(tag, inner) => {
            lemma_tag_round_trip(tag, *inner, rest, depth, s);
        },
        Item::Bytes(b) => {
            lemma_bytes_round_trip(b, rest, depth, s);
        },
        Item::Text(t) => {
            lemma_text_round_trip(t, rest, depth, s);
        },
        _ => {
            lemma_scalar_round_trip(item, rest, depth, s);
        },
    }
}

/// The round trip of null, a boolean, an integer or a float.
proof fn lemma_scalar_round_trip(item: Item, rest: Seq<u8>, depth: nat, s: Setup)
    requires
        round_trips(item, depth, s),
        item is Null || item is Bool || item is Integer || item is Float,
    ensures
        item_of(item_bytes(item) + rest, ExpectedSet::spec_all(), depth, s) == Ok::<(Item, nat), Fault>(
            (item, item_bytes(item).len()),
        ),
        item_bytes(item).len() >= 1,
{
    let bytes = item_bytes(item) + rest;
    match item {
        Item::Null => {
            lemma_concat_one(seq![0xf6u8]);
            assert(bytes[0] == 0xf6);
            assert(bytes.skip(1) =~= rest);
        },
        Item::Bool(b) => {
            lemma_concat_one(seq![if b { 0xf5u8 } else { 0xf4u8 }]);
            assert(bytes[0] == if b { 0xf5u8 } else { 0xf4u8 });
            assert(bytes.skip(1) =~= rest);
        },
        Item::Integer(v) => {
            lemma_concat_one(integer_head(v));
            if v < 0 {
                lemma_token_round_trip(1, (-1 - v) as u64, rest);
            } else {
                lemma_token_round_trip(0, v as u64, rest);
            }
        },
        Item::Float(f) => {
            lemma_concat_one(float_bytes(f));
            lemma_float_round_trip(f, rest);
        },
        _ => {},
    }
}

/// The round trip of a byte string.
proof fn lemma_bytes_round_trip(b: Seq<u8>, rest: Seq<u8>, depth: nat, s: Setup)
    requires
        round_trips(Item::Bytes(b), depth, s),
    ensures
        item_of(item_bytes(Item::Bytes(b)) + rest, ExpectedSet::spec_all(), depth, s) == Ok::<
            (Item, nat),
            Fault,
        >((Item::Bytes(b), item_bytes(Item::Bytes(b)).len())),
        item_bytes(Item::Bytes(b)).len() >= 1,
{
    let bytes = item_bytes(Item::Bytes(b)) + rest;
    let head = head_bytes(2, b.len() as u64);
    lemma_string_bytes(2, b);
    assert(bytes =~= head + (b + rest));
    lemma_token_round_trip(2, b.len() as u64, b + rest);
    assert((b + rest).take(b.len() as int) =~= b);
    assert(string_of(b + rest, 2, Some(b.len() as usize), s.direct, s.limit) == Ok::<
        (Seq<u8>, nat),
        Fault,
    >((b, b.len())));
}

/// The round trip of a text string.
proof fn lemma_text_round_trip(t: Seq<char>, rest: Seq<u8>, depth: nat, s: Setup)
    requires
        round_trips(Item::Text(t), depth, s),
    ensures
        item_of(item_bytes(Item::Text(t)) + rest, ExpectedSet::spec_all(), depth, s) == Ok::<
            (Item, nat),
            Fault,
        >((Item::Text(t), item_bytes(Item::Text(t)).len())),
        item_bytes(Item::Text(t)).len() >= 1,
{
    let bytes = item_bytes(Item::Text(t)) + rest;
    let content = encode_utf8(t);
    let head = head_bytes(3, content.len() as u64);
    lemma_string_bytes(3, content);
    assert(bytes =~= head + (content + rest));
    lemma_token_round_trip(3, content.len() as u64, content + rest);
    assert((content + rest).take(content.len() as int) =~= content);
    encode_utf8_valid_utf8(t);
    encode_utf8_decode_utf8(t);
    assert(text_of(content + rest, Some(content.len() as usize), s.direct, s.limit) == Ok::<
        (Seq<char>, nat),
        Fault,
    >((t, content.len())));
}

/// The round trip of an array.
proof fn lemma_array_round_trip(items: Seq<Item>, rest: Seq<u8>, depth: nat, s: Setup)
    requires
        round_trips(Item::Array(items), depth, s),
    ensures
        item_of(item_bytes(Item::Array(items)) + rest, ExpectedSet::spec_all(), depth, s) == Ok::<
            (Item, nat),
            Fault,
        >((Item::Array(items), item_bytes(Item::Array(items)).len())),
        item_bytes(Item::Array(items)).len() >= 1,
    decreases items, items.len() + 1,
{
    let bytes = item_bytes(Item::Array(items)) + rest;
    let head = head_bytes(4, items.len() as u64);
    let body = concat(items_chunks(items, 0));
    lemma_concat_append(seq![head], items_chunks(items, 0));
    lemma_concat_one(head);
    assert(bytes =~= head + (body + rest));
    lemma_token_round_trip(4, items.len() as u64, body + rest);
    assert(items_round_trip(items, (depth - 1) as nat, s)) by {
        reveal(items_round_trip);
    }
    lemma_items_round_trip(items, 0, rest, (depth - 1) as nat, s);
    assert(items.skip(0) =~= items);
    assert(array_of(body + rest, Some(items.len() as usize), depth, s) == Ok::<
        (Seq<Item>, nat),
        Fault,
    >((items, body.len())));
}

/// The round trip of a map.
proof fn lemma_mapping_round_trip(entries: Seq<(Item, Item)>, rest: Seq<u8>, depth: nat, s: Setup)
    requires
        round_trips(Item::Mapping(entries), depth, s),
    ensures
        item_of(item_bytes(Item::Mapping(entries)) + rest, ExpectedSet::spec_all(), depth, s) == Ok::<
            (Item, nat),
            Fault,
        >((Item::Mapping(entries), item_bytes(Item::Mapping(entries)).len())),
        item_bytes(Item::Mapping(entries)).len() >= 1,
    decreases entries, entries.len() + 1,
{
    let bytes = item_bytes(Item::Mapping(entries)) + rest;
    let head = head_bytes(5, entries.len() as u64);
    let body = concat(entries_chunks(entries, 0));
    lemma_concat_append(seq![head], entries_chunks(entries, 0));
    lemma_concat_one(head);
    assert(bytes =~= head + (body + rest));
    lemma_token_round_trip(5, entries.len() as u64, body + rest);
    assert(entries_round_trip(entries, (depth - 1) as nat, s)) by {
        reveal(entries_round_trip);
    }
    lemma_entries_round_trip(entries, 0, rest, (depth - 1) as nat, s);
    assert(entries.skip(0) =~= entries);
    assert(map_of(body + rest, Some(entries.len() as usize), depth, s) == Ok::<
        (Seq<(Item, Item)>, nat),
        Fault,
    >((entries, body.len())));
}

/// The round trip of a tagged item.
proof fn lemma_tag_round_trip(tag: u64, inner: Item, rest: Seq<u8>, depth: nat, s: Setup)
    requires
        round_trips(Item::Tag(tag, Box::new(inner)), depth, s),
    ensures
        item_of(
            item_bytes(Item::Tag(tag, Box::new(inner))) + rest,
            ExpectedSet::spec_all(),
            depth,
            s,
        ) == Ok::<(Item, nat), Fault>(
            (Item::Tag(tag, Box::new(inner)), item_bytes(Item::Tag(tag, Box::new(inner))).len()),
        ),
        item_bytes(Item::Tag(tag, Box::new(inner))).len() >= 1,
    decreases inner, 1nat,
{
    let bytes = item_bytes(Item::Tag(tag, Box::new(inner))) + rest;
    let head = head_bytes(6, tag);
    let body = item_bytes(inner);
    lemma_concat_append(seq![head], item_chunks(inner));
    lemma_concat_one(head);
    assert(bytes =~= head + (body + rest));
    lemma_token_round_trip(6, tag, body + rest);
    lemma_item_round_trip(inner, rest, (depth - 1) as nat, s);
}

/// The bytes of a string of the given major type: its head, then its
/// content.
pub proof fn lemma_string_bytes(major: u8, content: Seq<u8>)
    requires
        major == 2 || major == 3,
    ensures
        concat(seq![head_bytes(major, content.len() as u64), content]) == head_bytes(
            major,
            content.len() as u64,
        ) + content,
{
    let head = head_bytes(major, content.len() as u64);
    assert(seq![head, content] =~= seq![head] + seq![content]);
    lemma_concat_append(seq![head], seq![content]);
    lemma_concat_one(head);
    lemma_concat_one(content);
}

/// The elements of an array are its first element and the elements
/// behind it.
proof fn lemma_items_step(
    bytes: Seq<u8>,
    left: usize,
    depth: nat,
    s: Setup,
    first: Item,
    n: nat,
    more: Seq<Item>,
    m: nat,
)
    requires
        left < usize::MAX,
        0 < n <= bytes.len(),
        item_of(bytes, ExpectedSet::spec_all(), depth, s) == Ok::<(Item, nat), Fault>((first, n)),
        items_of(bytes.skip(n as int), Some(left), depth, s) == Ok::<(Seq<Item>, nat), Fault>((more, m)),
    ensures
        items_of(bytes, Some((left + 1) as usize), depth, s) == Ok::<(Seq<Item>, nat), Fault>(
            (seq![first] + more, m + n),
        ),
{
}

/// Whether every item of `items` can make the round trip.
#[verifier::opaque]
pub open spec fn items_round_trip(items: Seq<Item>, depth: nat, s: Setup) -> bool {
    forall|i: int| 0 <= i < items.len() ==> round_trips(#[trigger] items[i], depth, s)
}

/// Decoding what the encoder wrote for the elements of an array from the
/// one at `from` on gives those elements back.
pub proof fn lemma_items_round_trip(items: Seq<Item>, from: nat, rest: Seq<u8>, depth: nat, s: Setup)
    requires
        from <= items.len() <= usize::MAX,
        items_round_trip(items, depth, s),
    ensures
        items_of(
            concat(items_chunks(items, from)) + rest,
            Some((items.len() - from) as usize),
            depth,
            s,
        ) == Ok::<(Seq<Item>, nat), Fault>(
            (items.skip(from as int), concat(items_chunks(items, from)).len()),
        ),
    decreases items, items.len() - from,
{
    let bytes = concat(items_chunks(items, from)) + rest;
    if from >= items.len() {
        assert(concat(items_chunks(items, from)) =~= Seq::<u8>::empty());
        assert(items.skip(from as int) =~= Seq::<Item>::empty());
    } else {
        let first = items[from as int];
        let tail = concat(items_chunks(items, from + 1));
        let n = item_bytes(first).len();
        assert(round_trips(first, depth, s)) by {
            reveal(items_round_trip);
        }
        assert(bytes == item_bytes(first) + (tail + rest) && bytes.skip(n as int) == tail + rest
            && concat(items_chunks(items, from)).len() == tail.len() + n) by {
            lemma_concat_append(item_chunks(first), items_chunks(items, from + 1));
            assert(bytes =~= item_bytes(first) + (tail + rest));
            assert(bytes.skip(n as int) =~= tail + rest);
        }
        lemma_item_round_trip(first, tail + rest, depth, s);
        lemma_items_round_trip(items, from + 1, rest, depth, s);
        assert(seq![first] + items.skip((from + 1) as int) =~= items.skip(from as int));
        lemma_items_step(
            bytes,
            (items.len() - from - 1) as usize,
            depth,
            s,
            first,
            n,
            items.skip((from + 1) as int),
            tail.len(),
        );
    }
}

/// Whether every key and every value of `entries` can make the round
/// trip.
#[verifier::opaque]
pub open spec fn entries_round_trip(entries: Seq<(Item, Item)>, depth: nat, s: Setup) -> bool {
    forall|i: int|
        0 <= i < entries.len() ==> round_trips((#[trigger] entries[i]).0, depth, s) && round_trips(
            entries[i].1,
            depth,
            s,
        )
}

/// Decoding what the encoder wrote for an entry of a map gives the entry
/// back.
proof fn lemma_pair_round_trip(pair: (Item, Item), rest: Seq<u8>, depth: nat, s: Setup)
    requires
        round_trips(pair.0, depth, s),
        round_trips(pair.1, depth, s),
    ensures
        pair_of(item_bytes(pair.0) + (item_bytes(pair.1) + rest), depth, s) == Ok::<
            ((Item, Item), nat),
            Fault,
        >((pair, item_bytes(pair.0).len() + item_bytes(pair.1).len())),
        item_bytes(pair.0).len() + item_bytes(pair.1).len() >= 2,
    decreases pair, 1nat,
{
    let bytes = item_bytes(pair.0) + (item_bytes(pair.1) + rest);
    lemma_item_round_trip(pair.0, item_bytes(pair.1) + rest, depth, s);
    let n = item_bytes(pair.0).len();
    assert(bytes.skip(n as int) =~= item_bytes(pair.1) + rest);
    lemma_item_round_trip(pair.1, rest, depth, s);
}

/// The entries of a map are its first entry and the entries behind it.
proof fn lemma_entries_step(
    bytes: Seq<u8>,
    left: usize,
    depth: nat,
    s: Setup,
    pair: (Item, Item),
    n: nat,
    more: Seq<(Item, Item)>,
    m: nat,
)
    requires
        left < usize::MAX,
        0 < n <= bytes.len(),
        pair_of(bytes, depth, s) == Ok::<((Item, Item), nat), Fault>((pair, n)),
        entries_of(bytes.skip(n as int), Some(left), depth, s) == Ok::<(Seq<(Item, Item)>, nat), Fault>(
            (more, m),
        ),
    ensures
        entries_of(bytes, Some((left + 1) as usize), depth, s) == Ok::<(Seq<(Item, Item)>, nat), Fault>(
            (seq![pair] + more, m + n),
        ),
{
}

/// The bytes of the entries of a map from the one at `from` on: the key,
/// the value, and the bytes of the entries behind them.
proof fn lemma_entries_bytes(entries: Seq<(Item, Item)>, from: nat)
    requires
        from < entries.len(),
    ensures
        concat(entries_chunks(entries, from)) == item_bytes(entries[from as int].0) + (item_bytes(
            entries[from as int].1,
        ) + concat(entries_chunks(entries, from + 1))),
{
    let pair = entries[from as int];
    lemma_concat_append(item_chunks(pair.1), entries_chunks(entries, from + 1));
    lemma_concat_append(item_chunks(pair.0), item_chunks(pair.1) + entries_chunks(entries, from + 1));
}

/// How the bytes of the entries of a map from the one at `from` on, with
/// `rest` behind them, fall apart.
proof fn lemma_entries_layout(entries: Seq<(Item, Item)>, from: nat, rest: Seq<u8>)
    requires
        from < entries.len(),
    ensures
        ({
            let bytes = concat(entries_chunks(entries, from)) + rest;
            let pair = entries[from as int];
            let tail = concat(entries_chunks(entries, from + 1));
            let n = item_bytes(pair.0).len() + item_bytes(pair.1).len();
            &&& bytes == item_bytes(pair.0) + (item_bytes(pair.1) + (tail + rest))
            &&& bytes.skip(n as int) == tail + rest
            &&& concat(entries_chunks(entries, from)).len() == tail.len() + n
            &&& seq![pair] + entries.skip((from + 1) as int) == entries.skip(from as int)
        }),
{
    let bytes = concat(entries_chunks(entries, from)) + rest;
    let pair = entries[from as int];
    let tail = concat(entries_chunks(entries, from + 1));
    let n = item_bytes(pair.0).len() + item_bytes(pair.1).len();
    lemma_entries_bytes(entries, from);
    assert(bytes =~= item_bytes(pair.0) + (item_bytes(pair.1) + (tail + rest)));
    assert(bytes.skip(n as int) =~= tail + rest);
    assert(seq![pair] + entries.skip((from + 1) as int) =~= entries.skip(from as int));
}

/// The entries of a map from the one at `from` on come back, if the entry
/// at `from` makes the round trip and the entries behind it come back.
proof fn lemma_entries_round_trip_step(
    entries: Seq<(Item, Item)>,
    from: nat,
    rest: Seq<u8>,
    depth: nat,
    s: Setup,
)
    requires
        from < entries.len() <= usize::MAX,
        round_trips(entries[from as int].0, depth, s),
        round_trips(entries[from as int].1, depth, s),
        entries_of(
            concat(entries_chunks(entries, from + 1)) + rest,
            Some((entries.len() - from - 1) as usize),
            depth,
            s,
        ) == Ok::<(Seq<(Item, Item)>, nat), Fault>(
            (entries.skip((from + 1) as int), concat(entries_chunks(entries, from + 1)).len()),
        ),
    ensures
        entries_of(
            concat(entries_chunks(entries, from)) + rest,
            Some((entries.len() - from) as usize),
            depth,
            s,
        ) == Ok::<(Seq<(Item, Item)>, nat), Fault>(
            (entries.skip(from as int), concat(entries_chunks(entries, from)).len()),
        ),
    decreases entries, entries.len() - from, 0nat,
{
    let bytes = concat(entries_chunks(entries, from)) + rest;
    let pair = entries[from as int];
    let tail = concat(entries_chunks(entries, from + 1));
    let n = item_bytes(pair.0).len() + item_bytes(pair.1).len();
    lemma_entries_layout(entries, from, rest);
    lemma_pair_round_trip(pair, tail + rest, depth, s);
    lemma_entries_step(
        bytes,
        (entries.len() - from - 1) as usize,
        depth,
        s,
        pair,
        n,
        entries.skip((from + 1) as int),
        tail.len(),
    );
}

/// Decoding what the encoder wrote for the entries of a map from the one
/// at `from` on gives those entries back.
pub proof fn lemma_entries_round_trip(
    entries: Seq<(Item, Item)>,
    from: nat,
    rest: Seq<u8>,
    depth: nat,
    s: Setup,
)
    requires
        from <= entries.len() <= usize::MAX,
        entries_round_trip(entries, depth, s),
    ensures
        entries_of(
            concat(entries_chunks(entries, from)) + rest,
            Some((entries.len() - from) as usize),
            depth,
            s,
        ) == Ok::<(Seq<(Item, Item)>, nat), Fault>(
            (entries.skip(from as int), concat(entries_chunks(entries, from)).len()),
        ),
    decreases entries, entries.len() - from, 1nat,
{
    if from >= entries.len() {
        assert(concat(entries_chunks(entries, from)) =~= Seq::<u8>::empty());
        assert(entries.skip(from as int) =~= Seq::<(Item, Item)>::empty());
    } else {
        assert(round_trips(entries[from as int].0, depth, s) && round_trips(
            entries[from as int].1,
            depth,
            s,
        )) by {
            reveal(entries_round_trip);
        }
        lemma_entries_round_trip(entries, from + 1, rest, depth, s);
        lemma_entries_round_trip_step(entries, from, rest, depth, s);
    }
}

/// What holds of every item that a decoder with `depth` levels left and
/// set up as `s` yields: it has an encoding, its lengths can be addressed,
/// it is nested no deeper than the decoder goes, and it holds a tag only
/// where tags are kept.
pub open spec fn well_decoded(item: Item, depth: nat, s: Setup) -> bool {
    &&& item.encodable()
    &&& item.sized()
    &&& item.within(
        if depth >= 1 {
            (depth - 1) as nat
        } else {
            0
        },
    )
    &&& s.keep_tags || item.tagless()
}

/// Whether every item of `items` is well decoded.
#[verifier::opaque]
pub open spec fn items_well_decoded(items: Seq<Item>, depth: nat, s: Setup) -> bool {
    forall|i: int| 0 <= i < items.len() ==> well_decoded(#[trigger] items[i], depth, s)
}

/// Whether every key and every value of `entries` is well decoded.
#[verifier::opaque]
pub open spec fn entries_well_decoded(entries: Seq<(Item, Item)>, depth: nat, s: Setup) -> bool {
    forall|i: int|
        0 <= i < entries.len() ==> well_decoded((#[trigger] entries[i]).0, depth, s) && well_decoded(
            entries[i].1,
            depth,
            s,
        )
}

/// Every text string that is decoded is UTF-8: its characters are the
/// content of the string read as UTF-8, and the content is their encoding.
pub proof fn lemma_text_is_utf8(bytes: Seq<u8>, len: Option<usize>, direct: bool, limit: Option<nat>)
    ensures
        text_of(bytes, len, direct, limit) matches Ok((chars, n)) ==> (string_of(
            bytes,
            3,
            len,
            direct,
            limit,
        ) matches Ok((content, m)) && m == n && valid_utf8(content) && chars == decode_utf8(content)
            && encode_utf8(chars) == content),
{
    match string_of(bytes, 3, len, direct, limit) {
        Ok((content, m)) => {
            if valid_utf8(content) {
                decode_utf8_encode_utf8(content);
            }
        },
        Err(f) => {},
    }
}

/// What a decoder yields is well decoded.
pub proof fn lemma_item_well_decoded(bytes: Seq<u8>, valid: ExpectedSet, depth: nat, s: Setup)
    requires
        bytes.len() <= usize::MAX,
    ensures
        item_of(bytes, valid, depth, s) matches Ok((item, n)) ==> well_decoded(item, depth, s),
    decreases depth, bytes.len(), 1nat,
{
    lemma_token_takes(bytes, valid);
    match token_of(bytes, valid) {
        Ok((token, n)) => {
            lemma_item_after_well_decoded(token, bytes.skip(n as int), valid, depth, s);
        },
        Err(f) => {},
    }
}

/// What a decoder yields behind a head is well decoded.
proof fn lemma_item_after_well_decoded(token: Token, rest: Seq<u8>, valid: ExpectedSet, depth: nat, s: Setup)
    requires
        rest.len() <= usize::MAX,
        token matches Token::BigNegative(v) ==> integer_in_range(v as int),
    ensures
        item_after(token, rest, valid, depth, s) matches Ok((item, n)) ==> well_decoded(item, depth, s),
    decreases depth, rest.len(), 0nat,
{
    match token {
        Token::BytesStart(len) => {
            lemma_string_takes(rest, 2, len, s.direct, s.limit);
        },
        Token::TextStart(len) => {
            lemma_string_takes(rest, 3, len, s.direct, s.limit);
            lemma_text_is_utf8(rest, len, s.direct, s.limit);
        },
        Token::ArrayStart(len) => {
            if depth > 1 {
                lemma_items_well_decoded(rest, len, (depth - 1) as nat, s);
                match items_of(rest, len, (depth - 1) as nat, s) {
                    Ok((items, n)) => {
                        reveal(items_well_decoded);
                        assert(Item::Array(items).within((depth - 1) as nat));
                    },
                    Err(f) => {},
                }
            }
        },
        Token::MapStart(len) => {
            if depth > 1 {
                lemma_entries_well_decoded(rest, len, (depth - 1) as nat, s);
                match entries_of(rest, len, (depth - 1) as nat, s) {
                    Ok((entries, n)) => {
                        reveal(entries_well_decoded);
                        assert(Item::Mapping(entries).within((depth - 1) as nat));
                    },
                    Err(f) => {},
                }
            }
        },
        Token::Tag(tag) => {
            if depth > 1 {
                lemma_item_well_decoded(rest, valid_behind_tag(valid, s), (depth - 1) as nat, s);
                match item_of(rest, valid_behind_tag(valid, s), (depth - 1) as nat, s) {
                    Ok((inner, n)) => {
                        lemma_within_more(inner, (depth - 2) as nat, (depth - 1) as nat);
                    },
                    Err(f) => {},
                }
            }
        },
        _ => {},
    }
}

/// An item that is nested no deeper than `levels` is nested no deeper than
/// any greater number of levels.
pub proof fn lemma_within_more(item: Item, levels: nat, more: nat)
    requires
        item.within(levels),
        levels <= more,
    ensures
        item.within(more),
    decreases item,
{
    match item {
        Item::Array(items) => {
            assert forall|i: int| 0 <= i < items.len() implies (#[trigger] items[i]).within(
                (more - 1) as nat,
            ) by {
                lemma_within_more(items[i], (levels - 1) as nat, (more - 1) as nat);
            }
        },
        Item::Mapping(entries) => {
            assert forall|i: int| 0 <= i < entries.len() implies (#[trigger] entries[i]).0.within(
                (more - 1) as nat,
            ) && entries[i].1.within((more - 1) as nat) by {
                lemma_within_more(entries[i].0, (levels - 1) as nat, (more - 1) as nat);
                lemma_within_more(entries[i].1, (levels - 1) as nat, (more - 1) as nat);
            }
        },
        Item::Tag(_, inner) => {
            lemma_within_more(*inner, (levels - 1) as nat, (more - 1) as nat);
        },
        _ => {},
    }
}

/// The elements that a decoder yields are well decoded, and there are no
/// more of them than bytes were taken.
proof fn lemma_items_well_decoded(bytes: Seq<u8>, len: Option<usize>, depth: nat, s: Setup)
    requires
        bytes.len() <= usize::MAX,
    ensures
        items_of(bytes, len, depth, s) matches Ok((items, n)) ==> items_well_decoded(items, depth, s)
            && items.len() <= n <= bytes.len(),
    decreases depth, bytes.len(), 2nat,
{
    match access_step(bytes, len, ErrorCode::EofWhileParsingArray) {
        Ok((true, left)) => {
            lemma_item_takes(bytes, ExpectedSet::spec_all(), depth, s);
            lemma_item_well_decoded(bytes, ExpectedSet::spec_all(), depth, s);
            match item_of(bytes, ExpectedSet::spec_all(), depth, s) {
                Ok((first, n)) => {
                    lemma_items_well_decoded(bytes.skip(n as int), left, depth, s);
                    match items_of(bytes.skip(n as int), left, depth, s) {
                        Ok((more, m)) => {
                            let items = seq![first] + more;
                            assert(items_well_decoded(items, depth, s)) by {
                                reveal(items_well_decoded);
                                assert forall|i: int| 0 <= i < items.len() implies well_decoded(
                                    #[trigger] items[i],
                                    depth,
                                    s,
                                ) by {
                                    if i > 0 {
                                        assert(items[i] == more[i - 1]);
                                    }
                                }
                            }
                        },
                        Err(f) => {},
                    }
                },
                Err(f) => {},
            }
        },
        Ok((false, left)) => {
            reveal(items_well_decoded);
        },
        Err(f) => {},
    }
}

/// The entries that a decoder yields are well decoded, and there are no
/// more of them than bytes were taken.
proof fn lemma_entries_well_decoded(bytes: Seq<u8>, len: Option<usize>, depth: nat, s: Setup)
    requires
        bytes.len() <= usize::MAX,
    ensures
        entries_of(bytes, len, depth, s) matches Ok((entries, n)) ==> entries_well_decoded(
            entries,
            depth,
            s,
        ) && entries.len() <= n <= bytes.len(),
    decreases depth, bytes.len(), 3nat,
{
    match access_step(bytes, len, ErrorCode::EofWhileParsingMap) {
        Ok((true, left)) => {
            lemma_pair_takes(bytes, depth, s);
            lemma_pair_well_decoded(bytes, depth, s);
            match pair_of(bytes, depth, s) {
                Ok((pair, n)) => {
                    lemma_entries_well_decoded(bytes.skip(n as int), left, depth, s);
                    match entries_of(bytes.skip(n as int), left, depth, s) {
                        Ok((more, m)) => {
                            let entries = seq![pair] + more;
                            assert(entries_well_decoded(entries, depth, s)) by {
                                reveal(entries_well_decoded);
                                assert forall|i: int| 0 <= i < entries.len() implies well_decoded(
                                    (#[trigger] entries[i]).0,
                                    depth,
                                    s,
                                ) && well_decoded(entries[i].1, depth, s) by {
                                    if i > 0 {
                                        assert(entries[i] == more[i - 1]);
                                    }
                                }
                            }
                        },
                        Err(f) => {},
                    }
                },
                Err(f) => {},
            }
        },
        Ok((false, left)) => {
            reveal(entries_well_decoded);
        },
        Err(f) => {},
    }
}

/// The entry that a decoder yields is well decoded.
proof fn lemma_pair_well_decoded(bytes: Seq<u8>, depth: nat, s: Setup)
    requires
        bytes.len() <= usize::MAX,
    ensures
        pair_of(bytes, depth, s) matches Ok((pair, n)) ==> well_decoded(pair.0, depth, s)
            && well_decoded(pair.1, depth, s),
    decreases depth, bytes.len(), 2nat,
{
    lemma_item_takes(bytes, ExpectedSet::spec_all(), depth, s);
    lemma_item_well_decoded(bytes, ExpectedSet::spec_all(), depth, s);
    match item_of(bytes, ExpectedSet::spec_all(), depth, s) {
        Ok((key, n)) => {
            lemma_item_well_decoded(bytes.skip(n as int), ExpectedSet::spec_all(), depth, s);
        },
        Err(f) => {},
    }
}

/// Whether two setups differ at most in whether reads are handed out as
/// they lie in the input, and bound no buffer.
pub open spec fn same_but_direct(a: Setup, b: Setup) -> bool {
    a.limit is None && b.limit is None && a.keep_tags == b.keep_tags
}

/// What a decode yields does not depend on how the source hands out its
/// reads, as long as no buffer is bounded.
pub proof fn lemma_item_source_free(bytes: Seq<u8>, valid: ExpectedSet, depth: nat, a: Setup, b: Setup)
    requires
        same_but_direct(a, b),
    ensures
        item_of(bytes, valid, depth, a) == item_of(bytes, valid, depth, b),
    decreases depth, bytes.len(), 1nat,
{
    match token_of(bytes, valid) {
        Ok((token, n)) => {
            if 0 < n <= bytes.len() {
                lemma_item_after_source_free(token, bytes.skip(n as int), valid, depth, a, b);
            }
        },
        Err(f) => {},
    }
}

/// What a decode yields behind a head does not depend on how the source
/// hands out its reads.
proof fn lemma_item_after_source_free(
    token: Token,
    rest: Seq<u8>,
    valid: ExpectedSet,
    depth: nat,
    a: Setup,
    b: Setup,
)
    requires
        same_but_direct(a, b),
    ensures
        item_after(token, rest, valid, depth, a) == item_after(token, rest, valid, depth, b),
    decreases depth, rest.len(), 0nat,
{
    match token {
        Token::ArrayStart(len) => {
            if depth > 1 {
                lemma_items_source_free(rest, len, (depth - 1) as nat, a, b);
            }
        },
        Token::MapStart(len) => {
            if depth > 1 {
                lemma_entries_source_free(rest, len, (depth - 1) as nat, a, b);
            }
        },
        Token::Tag(tag) => {
            if depth > 1 {
                lemma_item_source_free(rest, valid_behind_tag(valid, a), (depth - 1) as nat, a, b);
            }
        },
        _ => {},
    }
}

/// The elements that a decode yields do not depend on how the source hands
/// out its reads.
proof fn lemma_items_source_free(bytes: Seq<u8>, len: Option<usize>, depth: nat, a: Setup, b: Setup)
    requires
        same_but_direct(a, b),
    ensures
        items_of(bytes, len, depth, a) == items_of(bytes, len, depth, b),
    decreases depth, bytes.len(), 2nat,
{
    match access_step(bytes, len, ErrorCode::EofWhileParsingArray) {
        Ok((true, left)) => {
            lemma_item_source_free(bytes, ExpectedSet::spec_all(), depth, a, b);
            match item_of(bytes, ExpectedSet::spec_all(), depth, a) {
                Ok((first, n)) => {
                    if 0 < n <= bytes.len() {
                        lemma_items_source_free(bytes.skip(n as int), left, depth, a, b);
                    }
                },
                Err(f) => {},
            }
        },
        _ => {},
    }
}

/// The entry that a decode yields does not depend on how the source hands
/// out its reads.
proof fn lemma_pair_source_free(bytes: Seq<u8>, depth: nat, a: Setup, b: Setup)
    requires
        same_but_direct(a, b),
    ensures
        pair_of(bytes, depth, a) == pair_of(bytes, depth, b),
    decreases depth, bytes.len(), 2nat,
{
    lemma_item_source_free(bytes, ExpectedSet::spec_all(), depth, a, b);
    match item_of(bytes, ExpectedSet::spec_all(), depth, a) {
        Ok((key, n)) => {
            if 0 < n <= bytes.len() {
                lemma_item_source_free(bytes.skip(n as int), ExpectedSet::spec_all(), depth, a, b);
            }
        },
        Err(f) => {},
    }
}

/// The entries that a decode yields do not depend on how the source hands
/// out its reads.
proof fn lemma_entries_source_free(bytes: Seq<u8>, len: Option<usize>, depth: nat, a: Setup, b: Setup)
    requires
        same_but_direct(a, b),
    ensures
        entries_of(bytes, len, depth, a) == entries_of(bytes, len, depth, b),
    decreases depth, bytes.len(), 3nat,
{
    match access_step(bytes, len, ErrorCode::EofWhileParsingMap) {
        Ok((true, left)) => {
            lemma_pair_source_free(bytes, depth, a, b);
            match pair_of(bytes, depth, a) {
                Ok((pair, n)) => {
                    if 0 < n <= bytes.len() {
                        lemma_entries_source_free(bytes.skip(n as int), left, depth, a, b);
                    }
                },
                Err(f) => {},
            }
        },
        _ => {},
    }
}

/// A value that is encoded and decoded again comes back as it was: for
/// every item that has an encoding, whose lengths can be addressed, that
/// is nested no deeper than the decoder goes and whose tags are kept, the
/// decode of its encoding is the item.
pub proof fn lemma_round_trip(item: Item, s: Setup)
    requires
        round_trips(item, RECURSION_LIMIT as nat, s),
    ensures
        document_of(item_bytes(item), s) == Ok::<Item, Fault>(item),
{
    lemma_item_round_trip(item, Seq::empty(), RECURSION_LIMIT as nat, s);
    assert(item_bytes(item) + Seq::<u8>::empty() =~= item_bytes(item));
}

/// What was decoded can be encoded, and its encoding decodes to the same
/// item: for every input that decodes to an item, the decode of the item's
/// encoding is that item. The encoding need not be the input, which may
/// hold heads that are longer than need be, lengths left open, and tags
/// that were dropped.
pub proof fn lemma_decoded_round_trips(bytes: Seq<u8>, s: Setup)
    requires
        bytes.len() <= usize::MAX,
        s.direct || s.limit is None,
    ensures
        document_of(bytes, s) matches Ok(item) ==> document_of(item_bytes(item), s) == Ok::<Item, Fault>(
            item,
        ),
{
    lemma_item_well_decoded(bytes, ExpectedSet::spec_all(), RECURSION_LIMIT as nat, s);
    match document_of(bytes, s) {
        Ok(item) => {
            lemma_round_trip(item, s);
        },
        Err(f) => {},
    }
}

/// A slice and a stream that hold the same bytes decode alike: to the same
/// item, or to the same fault at the same place.
pub proof fn lemma_sources_agree(bytes: Seq<u8>, keep_tags: bool)
    ensures
        document_of(bytes, Setup { direct: true, limit: None, keep_tags }) == document_of(
            bytes,
            Setup { direct: false, limit: None, keep_tags },
        ),
{
    lemma_item_source_free(
        bytes,
        ExpectedSet::spec_all(),
        RECURSION_LIMIT as nat,
        Setup { direct: true, limit: None, keep_tags },
        Setup { direct: false, limit: None, keep_tags },
    );
}

/// What a decode yields is nested less deep than the limit on nesting: a
/// decoder that starts with the limit of 128 never goes further in than
/// 127 levels of arrays, maps and tags.
pub proof fn lemma_depth_is_bounded(bytes: Seq<u8>, s: Setup)
    requires
        bytes.len() <= usize::MAX,
    ensures
        document_of(bytes, s) matches Ok(item) ==> item.within(127),
{
    lemma_item_well_decoded(bytes, ExpectedSet::spec_all(), RECURSION_LIMIT as nat, s);
}

/// An error lies at or behind the place at which the failing step began:
/// the offset of the error is the position of the decoder before the step
/// plus the place of the fault in what was left of the input.
pub proof fn lemma_offsets_are_monotone<'de, R: Read<'de>, O: DeserializerOptions, T>(
    de: &Deserializer<R, O>,
    r: Result<T, Error>,
    fault: Fault,
)
    requires
        de.failed(r, fault),
    ensures
        r matches Err(e) && e.offset >= de.position() && e.offset - de.position() == fault.at,
{
}

} // verus!
