//! Data items as values: the tree that a decode yields and an encode takes.

use vstd::prelude::*;
use vstd::slice::slice_to_vec;
use vstd::string::StringSliceAdditionalSpecFns;
use vstd::utf8::encode_utf8;
use crate::de::{
    access_end, access_step, chunk_of, chunks_of, shifted, string_of, text_of, token_of, value_due,
    DefaultDeserializerOptions,
    Deserializer, DeserializerOptions, EitherStr, Fault, MapAccess, SeqAccess, Token, RECURSION_LIMIT,
};
use crate::error::{Error, ErrorCode, ExpectedSet};
use crate::read::{EitherLifetime, Offset, Read};
use crate::ser::{
    bytes_chunks, float_bytes, integer_head, integer_in_range, no_encoding, text_chunks, Float, Serializer,
    SerializerOptions,
};
use crate::wire::head_bytes;
use crate::write::{concat, failure, lemma_all_fit_written, lemma_unbounded_fits, write_outcome, Write};

verus! {

/// A data item, in mathematical terms.
pub enum Item {
    /// Null or undefined.
    Null,
    /// A boolean.
    Bool(bool),
    /// An integer.
    Integer(int),
    /// A float, as it stands on the wire.
    Float(Float),
    /// A byte string.
    Bytes(Seq<u8>),
    /// A text string.
    Text(Seq<char>),
    /// An array.
    Array(Seq<Item>),
    /// A map: its entries, in the order in which they stand.
    Mapping(Seq<(Item, Item)>),
    /// A tagged item.
    Tag(u64, Box<Item>),
}

/// A data item.
#[derive(Debug, PartialEq)]
pub enum Value {
    /// Null.
    Null,
    /// A boolean.
    Bool(bool),
    /// An integer. What can be encoded lies between `-2^64` and `2^64 - 1`.
    Integer(i128),
    /// A float, as it stands on the wire.
    Float(Float),
    /// A byte string.
    Bytes(Vec<u8>),
    /// A text string.
    Text(String),
    /// An array.
    Array(Vec<Value>),
    /// A map: its entries, in the order in which they stand.
    Mapping(Vec<(Value, Value)>),
    /// A tagged value.
    Tag(u64, Box<Value>),
}

impl Value {
    /// The data item that the value stands for.
    pub open spec fn item(&self) -> Item
        decreases self,
    {
        match self {
            Value::Null => Item::Null,
            Value::Bool(b) => Item::Bool(*b),
            Value::Integer(v) => Item::Integer(*v as int),
            Value::Float(f) => Item::Float(*f),
            Value::Bytes(b) => Item::Bytes(b@),
            Value::Text(t) => Item::Text(t@),
            Value::Array(items) => Item::Array(
                Seq::new(
                    items@.len(),
                    |i: int|
                        if 0 <= i < items@.len() {
                            items@[i].item()
                        } else {
                            Item::Null
                        },
                ),
            ),
            Value::Mapping(entries) => Item::Mapping(
                Seq::new(
                    entries@.len(),
                    |i: int|
                        if 0 <= i < entries@.len() {
                            (entries@[i].0.item(), entries@[i].1.item())
                        } else {
                            (Item::Null, Item::Null)
                        },
                ),
            ),
            Value::Tag(tag, inner) => Item::Tag(*tag, Box::new((**inner).item())),
        }
    }
}

impl View for Value {
    type V = Item;

    open spec fn view(&self) -> Item {
        self.item()
    }
}

/// What a decode depends on besides the input and what is accepted:
/// whether the source hands out reads as they lie in the input, how much
/// its buffer takes, and whether tags are handed on.
pub struct Setup {
    /// Whether reads are handed out as they lie in the input.
    pub direct: bool,
    /// How many bytes the buffer takes, if it is bounded.
    pub limit: Option<nat>,
    /// Whether tags are handed on.
    pub keep_tags: bool,
}

/// What may stand behind a tag: anything where tags are handed on, and
/// what was accepted for the tagged item itself where they are dropped.
pub open spec fn valid_behind_tag(valid: ExpectedSet, s: Setup) -> ExpectedSet {
    if s.keep_tags {
        ExpectedSet::spec_all()
    } else {
        valid
    }
}

/// The data item whose head said `token` and which goes on in `rest`, and
/// how many bytes of `rest` belong to it.
pub open spec fn item_after(token: Token, rest: Seq<u8>, valid: ExpectedSet, depth: nat, s: Setup) -> Result<
    (Item, nat),
    Fault,
>
    decreases depth, rest.len(), 0nat,
{
    match token {
        Token::Unsigned(v) => Ok((Item::Integer(v as int), 0)),
        Token::Negative(v) => Ok((Item::Integer(v as int), 0)),
        Token::BigNegative(v) => Ok((Item::Integer(v as int), 0)),
        Token::Bool(b) => Ok((Item::Bool(b), 0)),
        Token::Null => Ok((Item::Null, 0)),
        Token::Float(f) => Ok((Item::Float(f), 0)),
        Token::BytesStart(len) => match string_of(rest, 2, len, s.direct, s.limit) {
            Err(f) => Err(f),
            Ok((content, m)) => Ok((Item::Bytes(content), m)),
        },
        Token::TextStart(len) => match text_of(rest, len, s.direct, s.limit) {
            Err(f) => Err(f),
            Ok((chars, m)) => Ok((Item::Text(chars), m)),
        },
        Token::ArrayStart(len) => if depth <= 1 {
            Err(Fault { code: ErrorCode::RecursionLimitExceeded, at: 0, taken: 0 })
        } else {
            match items_of(rest, len, (depth - 1) as nat, s) {
                Err(f) => Err(f),
                Ok((items, m)) => Ok((Item::Array(items), m)),
            }
        },
        Token::MapStart(len) => if depth <= 1 {
            Err(Fault { code: ErrorCode::RecursionLimitExceeded, at: 0, taken: 0 })
        } else {
            match entries_of(rest, len, (depth - 1) as nat, s) {
                Err(f) => Err(f),
                Ok((entries, m)) => Ok((Item::Mapping(entries), m)),
            }
        },
        Token::Tag(tag) => if depth <= 1 {
            Err(Fault { code: ErrorCode::RecursionLimitExceeded, at: 0, taken: 0 })
        } else {
            match item_of(rest, valid_behind_tag(valid, s), (depth - 1) as nat, s) {
                Err(f) => Err(f),
                Ok((inner, m)) => Ok(
                    (
                        if s.keep_tags {
                            Item::Tag(tag, Box::new(inner))
                        } else {
                            inner
                        },
                        m,
                    ),
                ),
            }
        },
    }
}

/// The data item that `bytes` start with, and how many bytes it takes.
/// `valid` is what is accepted, `depth` one more than the number of levels
/// of arrays, maps and tags that may still be entered.
pub open spec fn item_of(bytes: Seq<u8>, valid: ExpectedSet, depth: nat, s: Setup) -> Result<
    (Item, nat),
    Fault,
>
    decreases depth, bytes.len(), 1nat,
{
    match token_of(bytes, valid) {
        Err(f) => Err(f),
        Ok((token, n)) => shifted(item_after(token, bytes.skip(n as int), valid, depth, s), n),
    }
}

/// The elements of the array whose head has been read, up to its end, and
/// how many bytes they take. A data item takes at least one byte and no
/// more than there are (`lemma_item_takes`), so the case that is a fault
/// for a count out of that range never arises.
pub open spec fn items_of(bytes: Seq<u8>, len: Option<usize>, depth: nat, s: Setup) -> Result<
    (Seq<Item>, nat),
    Fault,
>
    decreases depth, bytes.len(), 2nat,
{
    match access_step(bytes, len, ErrorCode::EofWhileParsingArray) {
        Err(f) => Err(f),
        Ok((false, left)) => match access_end(bytes, left, ErrorCode::EofWhileParsingArray) {
            Err(f) => Err(f),
            Ok((_, n)) => Ok((Seq::empty(), n)),
        },
        Ok((true, left)) => match item_of(bytes, ExpectedSet::spec_all(), depth, s) {
            Err(f) => Err(f),
            Ok((first, n)) => if 0 < n <= bytes.len() {
                match items_of(bytes.skip(n as int), left, depth, s) {
                    Err(f) => Err(f.later(n)),
                    Ok((more, m)) => Ok((seq![first] + more, m + n)),
                }
            } else {
                Err(Fault { code: ErrorCode::TrailingData, at: 0, taken: 0 })
            },
        },
    }
}

/// The value of an entry whose key has been read: the data item that
/// comes next, which has to be there.
pub open spec fn entry_value_of(bytes: Seq<u8>, depth: nat, s: Setup) -> Result<(Item, nat), Fault>
    decreases depth, bytes.len(), 2nat,
{
    match value_due(bytes) {
        Err(f) => Err(f),
        Ok(_) => item_of(bytes, ExpectedSet::spec_all(), depth, s),
    }
}

/// The entry that `bytes` start with: a key, then its value; a map that
/// ends behind the key is cut short. As in `items_of`, the fault for a
/// count out of range never arises.
pub open spec fn pair_of(bytes: Seq<u8>, depth: nat, s: Setup) -> Result<((Item, Item), nat), Fault>
    decreases depth, bytes.len(), 2nat,
{
    match item_of(bytes, ExpectedSet::spec_all(), depth, s) {
        Err(f) => Err(f),
        Ok((key, n)) => if 0 < n <= bytes.len() {
            match entry_value_of(bytes.skip(n as int), depth, s) {
                Err(f) => Err(f.later(n)),
                Ok((value, k)) => Ok(((key, value), k + n)),
            }
        } else {
            Err(Fault { code: ErrorCode::TrailingData, at: 0, taken: 0 })
        },
    }
}

/// The entries of the map whose head has been read, up to its end, and how
/// many bytes they take. As in `items_of`, the fault for a count out of
/// range never arises.
pub open spec fn entries_of(bytes: Seq<u8>, len: Option<usize>, depth: nat, s: Setup) -> Result<
    (Seq<(Item, Item)>, nat),
    Fault,
>
    decreases depth, bytes.len(), 3nat,
{
    match access_step(bytes, len, ErrorCode::EofWhileParsingMap) {
        Err(f) => Err(f),
        Ok((false, left)) => match access_end(bytes, left, ErrorCode::EofWhileParsingMap) {
            Err(f) => Err(f),
            Ok((_, n)) => Ok((Seq::empty(), n)),
        },
        Ok((true, left)) => match pair_of(bytes, depth, s) {
            Err(f) => Err(f),
            Ok((pair, n)) => if 0 < n <= bytes.len() {
                match entries_of(bytes.skip(n as int), left, depth, s) {
                    Err(f) => Err(f.later(n)),
                    Ok((more, m)) => Ok((seq![pair] + more, m + n)),
                }
            } else {
                Err(Fault { code: ErrorCode::TrailingData, at: 0, taken: 0 })
            },
        },
    }
}

/// The elements of the array whose head has been read; a fault where the
/// limit on nesting does not let the decoder enter it.
pub open spec fn array_of(bytes: Seq<u8>, len: Option<usize>, depth: nat, s: Setup) -> Result<
    (Seq<Item>, nat),
    Fault,
> {
    if depth <= 1 {
        Err(Fault { code: ErrorCode::RecursionLimitExceeded, at: 0, taken: 0 })
    } else {
        items_of(bytes, len, (depth - 1) as nat, s)
    }
}

/// The entries of the map whose head has been read; a fault where the
/// limit on nesting does not let the decoder enter it.
pub open spec fn map_of(bytes: Seq<u8>, len: Option<usize>, depth: nat, s: Setup) -> Result<
    (Seq<(Item, Item)>, nat),
    Fault,
> {
    if depth <= 1 {
        Err(Fault { code: ErrorCode::RecursionLimitExceeded, at: 0, taken: 0 })
    } else {
        entries_of(bytes, len, (depth - 1) as nat, s)
    }
}

/// A head takes at least its initial byte and no more than there is.
pub proof fn lemma_token_takes(bytes: Seq<u8>, valid: ExpectedSet)
    ensures
        token_of(bytes, valid) matches Ok((_, n)) ==> 1 <= n <= bytes.len(),
{
}

/// The chunks of a string take at least the break byte and no more than
/// there is, and hold no more than they take.
pub proof fn lemma_chunks_take(bytes: Seq<u8>, major: u8, held: nat, limit: Option<nat>)
    ensures
        chunks_of(bytes, major, held, limit) matches Ok((content, n)) ==> 1 <= n <= bytes.len()
            && content.len() <= n,
    decreases bytes.len(),
{
    match chunk_of(bytes, major, held, limit) {
        Ok((Some(piece), n)) => {
            lemma_chunks_take(bytes.skip(n as int), major, held + piece.len(), limit);
        },
        _ => {},
    }
}

/// The content of a string takes no more than there is, and holds no more
/// than it takes.
pub proof fn lemma_string_takes(
    bytes: Seq<u8>,
    major: u8,
    len: Option<usize>,
    direct: bool,
    limit: Option<nat>,
)
    ensures
        string_of(bytes, major, len, direct, limit) matches Ok((content, n)) ==> n <= bytes.len()
            && content.len() <= n,
{
    if len is None {
        lemma_chunks_take(bytes, major, 0, limit);
    }
}

/// A data item takes at least one byte and no more than there are.
pub proof fn lemma_item_takes(bytes: Seq<u8>, valid: ExpectedSet, depth: nat, s: Setup)
    ensures
        item_of(bytes, valid, depth, s) matches Ok((_, n)) ==> 1 <= n <= bytes.len(),
    decreases depth, bytes.len(), 0nat,
{
    lemma_token_takes(bytes, valid);
    match token_of(bytes, valid) {
        Err(f) => {},
        Ok((token, n)) => {
            let rest = bytes.skip(n as int);
            match token {
                Token::BytesStart(len) => {
                    lemma_string_takes(rest, 2, len, s.direct, s.limit);
                },
                Token::TextStart(len) => {
                    lemma_string_takes(rest, 3, len, s.direct, s.limit);
                },
                Token::ArrayStart(len) => {
                    if depth > 1 {
                        lemma_items_take(rest, len, (depth - 1) as nat, s);
                    }
                },
                Token::MapStart(len) => {
                    if depth > 1 {
                        lemma_entries_take(rest, len, (depth - 1) as nat, s);
                    }
                },
                Token::Tag(tag) => {
                    if depth > 1 {
                        lemma_item_takes(rest, valid_behind_tag(valid, s), (depth - 1) as nat, s);
                    }
                },
                _ => {},
            }
        },
    }
}

/// The elements of an array take no more than there is.
pub proof fn lemma_items_take(bytes: Seq<u8>, len: Option<usize>, depth: nat, s: Setup)
    ensures
        items_of(bytes, len, depth, s) matches Ok((_, n)) ==> n <= bytes.len(),
    decreases depth, bytes.len(), 1nat,
{
    match access_step(bytes, len, ErrorCode::EofWhileParsingArray) {
        Ok((true, left)) => {
            lemma_item_takes(bytes, ExpectedSet::spec_all(), depth, s);
            match item_of(bytes, ExpectedSet::spec_all(), depth, s) {
                Ok((first, n)) => {
                    lemma_items_take(bytes.skip(n as int), left, depth, s);
                },
                Err(f) => {},
            }
        },
        _ => {},
    }
}

/// An entry takes at least two bytes and no more than there are.
pub proof fn lemma_pair_takes(bytes: Seq<u8>, depth: nat, s: Setup)
    ensures
        pair_of(bytes, depth, s) matches Ok((_, n)) ==> 2 <= n <= bytes.len(),
    decreases depth, bytes.len(), 2nat,
{
    lemma_item_takes(bytes, ExpectedSet::spec_all(), depth, s);
    match item_of(bytes, ExpectedSet::spec_all(), depth, s) {
        Ok((key, n)) => {
            lemma_item_takes(bytes.skip(n as int), ExpectedSet::spec_all(), depth, s);
        },
        Err(f) => {},
    }
}

/// The entries of a map take no more than there is.
pub proof fn lemma_entries_take(bytes: Seq<u8>, len: Option<usize>, depth: nat, s: Setup)
    ensures
        entries_of(bytes, len, depth, s) matches Ok((_, n)) ==> n <= bytes.len(),
    decreases depth, bytes.len(), 3nat,
{
    match access_step(bytes, len, ErrorCode::EofWhileParsingMap) {
        Ok((true, left)) => {
            lemma_pair_takes(bytes, depth, s);
            match pair_of(bytes, depth, s) {
                Ok((pair, n)) => {
                    lemma_entries_take(bytes.skip(n as int), left, depth, s);
                },
                Err(f) => {},
            }
        },
        _ => {},
    }
}

/// The data items that values stand for.
pub open spec fn items_view(values: Seq<Value>) -> Seq<Item> {
    Seq::new(values.len(), |i: int| values[i].item())
}

/// The entries that pairs of values stand for.
pub open spec fn entries_view(values: Seq<(Value, Value)>) -> Seq<(Item, Item)> {
    Seq::new(values.len(), |i: int| (values[i].0.item(), values[i].1.item()))
}

/// An array stands for the array of what its elements stand for.
pub proof fn lemma_array_view(values: Vec<Value>)
    ensures
        Value::Array(values).item() == Item::Array(items_view(values@)),
{
    assert(Value::Array(values).item()->Array_0 =~= items_view(values@));
}

/// A map stands for the map of what its entries stand for.
pub proof fn lemma_mapping_view(values: Vec<(Value, Value)>)
    ensures
        Value::Mapping(values).item() == Item::Mapping(entries_view(values@)),
{
    assert(Value::Mapping(values).item()->Mapping_0 =~= entries_view(values@));
}

/// An outcome with `items` put before what it yields and `by` added to
/// what it took.
pub open spec fn joined<T>(outcome: Result<(Seq<T>, nat), Fault>, items: Seq<T>, by: nat) -> Result<
    (Seq<T>, nat),
    Fault,
> {
    match outcome {
        Ok((more, n)) => Ok((items + more, n + by)),
        Err(f) => Err(f.later(by)),
    }
}

/// Putting items before an outcome twice is putting all of them before it.
pub proof fn lemma_joined_twice<T>(
    outcome: Result<(Seq<T>, nat), Fault>,
    first: Seq<T>,
    first_len: nat,
    second: Seq<T>,
    second_len: nat,
)
    ensures
        joined(joined(outcome, second, second_len), first, first_len) == joined(
            outcome,
            first + second,
            first_len + second_len,
        ),
{
    match outcome {
        Ok((more, n)) => {
            assert(first + (second + more) =~= (first + second) + more);
        },
        Err(f) => {},
    }
}

/// One step of reading an array: with `done` read and `taken` bytes of
/// `all` behind, what stands next decides how the whole goes on.
pub proof fn lemma_items_go_on(
    all: Seq<u8>,
    len: Option<usize>,
    depth: nat,
    s: Setup,
    taken: nat,
    left: Option<usize>,
    done: Seq<Item>,
)
    requires
        taken <= all.len(),
        items_of(all, len, depth, s) == joined(items_of(all.skip(taken as int), left, depth, s), done, taken),
    ensures
        ({
            let here = all.skip(taken as int);
            match access_step(here, left, ErrorCode::EofWhileParsingArray) {
                Err(f) => items_of(all, len, depth, s) == Err::<(Seq<Item>, nat), Fault>(f.later(taken)),
                Ok((false, rest)) => match access_end(here, rest, ErrorCode::EofWhileParsingArray) {
                    Err(f) => items_of(all, len, depth, s) == Err::<(Seq<Item>, nat), Fault>(
                        f.later(taken),
                    ) && taken + f.taken <= all.len() && here.skip(f.taken as int) == all.skip(
                        (taken + f.taken) as int,
                    ),
                    Ok((_, n)) => items_of(all, len, depth, s) == Ok::<(Seq<Item>, nat), Fault>(
                        (done, n + taken),
                    ) && taken + n <= all.len() && here.skip(n as int) == all.skip((taken + n) as int),
                },
                Ok((true, rest)) => match item_of(here, ExpectedSet::spec_all(), depth, s) {
                    Err(f) => items_of(all, len, depth, s) == Err::<(Seq<Item>, nat), Fault>(
                        f.later(taken),
                    ) && (f.taken <= here.len() ==> here.skip(f.taken as int) == all.skip(
                        (taken + f.taken) as int,
                    )),
                    Ok((first, n)) => 0 < n && taken + n <= all.len() && here.skip(n as int)
                        == all.skip((taken + n) as int) && items_of(all, len, depth, s) == joined(
                        items_of(all.skip((taken + n) as int), rest, depth, s),
                        done + seq![first],
                        taken + n,
                    ),
                },
            }
        }),
{
    let here = all.skip(taken as int);
    match access_step(here, left, ErrorCode::EofWhileParsingArray) {
        Err(f) => {},
        Ok((false, rest)) => match access_end(here, rest, ErrorCode::EofWhileParsingArray) {
            Err(f) => {
                assert(here.skip(f.taken as int) =~= all.skip((taken + f.taken) as int));
            },
            Ok((_, n)) => {
                assert(done + Seq::<Item>::empty() =~= done);
                assert(here.skip(n as int) =~= all.skip((taken + n) as int));
            },
        },
        Ok((true, rest)) => {
            lemma_item_takes(here, ExpectedSet::spec_all(), depth, s);
            match item_of(here, ExpectedSet::spec_all(), depth, s) {
                Err(f) => {
                    if f.taken <= here.len() {
                        assert(here.skip(f.taken as int) =~= all.skip((taken + f.taken) as int));
                    }
                },
                Ok((first, n)) => {
                    assert(here.skip(n as int) =~= all.skip((taken + n) as int));
                    lemma_joined_twice(
                        items_of(all.skip((taken + n) as int), rest, depth, s),
                        done,
                        taken,
                        seq![first],
                        n,
                    );
                },
            }
        },
    }
}

/// One step of reading a map: with `done` read and `taken` bytes of `all`
/// behind, what stands next decides how the whole goes on.
pub proof fn lemma_entries_go_on(
    all: Seq<u8>,
    len: Option<usize>,
    depth: nat,
    s: Setup,
    taken: nat,
    left: Option<usize>,
    done: Seq<(Item, Item)>,
)
    requires
        taken <= all.len(),
        entries_of(all, len, depth, s) == joined(
            entries_of(all.skip(taken as int), left, depth, s),
            done,
            taken,
        ),
    ensures
        ({
            let here = all.skip(taken as int);
            match access_step(here, left, ErrorCode::EofWhileParsingMap) {
                Err(f) => entries_of(all, len, depth, s) == Err::<(Seq<(Item, Item)>, nat), Fault>(
                    f.later(taken),
                ),
                Ok((false, rest)) => match access_end(here, rest, ErrorCode::EofWhileParsingMap) {
                    Err(f) => entries_of(all, len, depth, s) == Err::<(Seq<(Item, Item)>, nat), Fault>(
                        f.later(taken),
                    ) && taken + f.taken <= all.len() && here.skip(f.taken as int) == all.skip(
                        (taken + f.taken) as int,
                    ),
                    Ok((_, n)) => entries_of(all, len, depth, s) == Ok::<
                        (Seq<(Item, Item)>, nat),
                        Fault,
                    >((done, n + taken)) && taken + n <= all.len() && here.skip(n as int)
                        == all.skip((taken + n) as int),
                },
                Ok((true, rest)) => match pair_of(here, depth, s) {
                    Err(f) => entries_of(all, len, depth, s) == Err::<(Seq<(Item, Item)>, nat), Fault>(
                        f.later(taken),
                    ) && (f.taken <= here.len() ==> here.skip(f.taken as int) == all.skip(
                        (taken + f.taken) as int,
                    )),
                    Ok((pair, n)) => 0 < n && taken + n <= all.len() && here.skip(n as int)
                        == all.skip((taken + n) as int) && entries_of(all, len, depth, s) == joined(
                        entries_of(all.skip((taken + n) as int), rest, depth, s),
                        done + seq![pair],
                        taken + n,
                    ),
                },
            }
        }),
{
    let here = all.skip(taken as int);
    match access_step(here, left, ErrorCode::EofWhileParsingMap) {
        Err(f) => {},
        Ok((false, rest)) => match access_end(here, rest, ErrorCode::EofWhileParsingMap) {
            Err(f) => {
                assert(here.skip(f.taken as int) =~= all.skip((taken + f.taken) as int));
            },
            Ok((_, n)) => {
                assert(done + Seq::<(Item, Item)>::empty() =~= done);
                assert(here.skip(n as int) =~= all.skip((taken + n) as int));
            },
        },
        Ok((true, rest)) => {
            lemma_pair_takes(here, depth, s);
            match pair_of(here, depth, s) {
                Err(f) => {
                    if f.taken <= here.len() {
                        assert(here.skip(f.taken as int) =~= all.skip((taken + f.taken) as int));
                    }
                },
                Ok((pair, n)) => {
                    assert(here.skip(n as int) =~= all.skip((taken + n) as int));
                    lemma_joined_twice(
                        entries_of(all.skip((taken + n) as int), rest, depth, s),
                        done,
                        taken,
                        seq![pair],
                        n,
                    );
                },
            }
        },
    }
}

impl<'de, R: Read<'de>, O: DeserializerOptions> Deserializer<R, O> {
    /// What a decode with this decoder depends on.
    pub open spec fn setup(&self) -> Setup {
        Setup { direct: R::borrows_reads(), limit: self.buffer_limit(), keep_tags: self.keeps_tags() }
    }

    /// Whether a decode that was to end as `outcome` says did so: on
    /// success the value stands for the item and its bytes are taken; on a
    /// fault the error bears its code and its place.
    pub open spec fn parsed(&self, after: &Self, r: Result<Value, Error>, outcome: Result<(Item, nat), Fault>) -> bool {
        match outcome {
            Ok((item, n)) => self.moved(after, n) && (r matches Ok(v) && v.item() == item),
            Err(f) => self.faulted(after, r, f),
        }
    }

    /// A decode that follows `n` taken bytes ends where it ends, `n` bytes
    /// further on.
    pub proof fn lemma_parsed_after(
        &self,
        mid: &Self,
        end: &Self,
        n: nat,
        r: Result<Value, Error>,
        outcome: Result<(Item, nat), Fault>,
    )
        requires
            self.advanced(mid, n),
            mid.parsed(end, r, outcome),
        ensures
            self.parsed(end, r, shifted(outcome, n)),
    {
        match outcome {
            Ok((item, m)) => {
                self.source().input().lemma_skip_twice(n, m);
            },
            Err(f) => {
                self.source().input().lemma_skip_twice(n, f.taken);
            },
        }
    }

    /// Reads a data item of a kind that `valid` admits, whole.
    pub fn deserialize_with(&mut self, valid: ExpectedSet) -> (r: Result<Value, Error>)
        requires
            old(self).inv(),
        ensures
            old(self).parsed(
                final(self),
                r,
                item_of(old(self).remaining(), valid, old(self).depth() as nat, old(self).setup()),
            ),
        decreases old(self).depth(), 2nat,
    {
        let token = match self.parse_value(valid) {
            Ok(token) => token,
            Err(e) => {
                return Err(e);
            },
        };
        let ghost mid = *self;
        let r = self.complete(token, valid);
        proof {
            lemma_token_takes(old(self).remaining(), valid);
            let n = token_of(old(self).remaining(), valid)->Ok_0.1;
            old(self).lemma_parsed_after(
                &mid,
                self,
                n,
                r,
                item_after(token, mid.remaining(), valid, mid.depth() as nat, mid.setup()),
            );
        }
        r
    }

    /// Reads what is left of a data item whose head said `token`.
    fn complete(&mut self, token: Token, valid: ExpectedSet) -> (r: Result<Value, Error>)
        requires
            old(self).inv(),
        ensures
            old(self).parsed(
                final(self),
                r,
                item_after(
                    token,
                    old(self).remaining(),
                    valid,
                    old(self).depth() as nat,
                    old(self).setup(),
                ),
            ),
        decreases old(self).depth(), 1nat,
    {
        proof {
            assert(self.remaining().skip(0) =~= self.remaining());
        }
        match token {
            Token::Unsigned(v) => Ok(Value::Integer(v as i128)),
            Token::Negative(v) => Ok(Value::Integer(v as i128)),
            Token::BigNegative(v) => Ok(Value::Integer(v)),
            Token::Bool(b) => Ok(Value::Bool(b)),
            Token::Null => Ok(Value::Null),
            Token::Float(f) => Ok(Value::Float(f)),
            Token::BytesStart(len) => {
                match self.parse_bytes(len) {
                    Ok(EitherLifetime::Long(b)) => Ok(Value::Bytes(slice_to_vec(b))),
                    Ok(EitherLifetime::Short(b)) => Ok(Value::Bytes(slice_to_vec(b))),
                    Err(e) => Err(e),
                }
            },
            Token::TextStart(len) => {
                match self.parse_str(len) {
                    Ok(EitherStr::Long(t)) => Ok(Value::Text(t.to_owned())),
                    Ok(EitherStr::Short(t)) => Ok(Value::Text(t.to_owned())),
                    Err(e) => Err(e),
                }
            },
            Token::ArrayStart(len) => {
                match self.parse_array(len) {
                    Ok(items) => {
                        proof {
                            lemma_array_view(items);
                        }
                        Ok(Value::Array(items))
                    },
                    Err(e) => Err(e),
                }
            },
            Token::MapStart(len) => {
                match self.parse_map(len) {
                    Ok(entries) => {
                        proof {
                            lemma_mapping_view(entries);
                        }
                        Ok(Value::Mapping(entries))
                    },
                    Err(e) => Err(e),
                }
            },
            Token::Tag(tag) => self.parse_tagged(tag, valid),
        }
    }

    /// Reads the value behind a tag whose head has been read: one level
    /// further in. Where tags are handed on the value is wrapped in the tag;
    /// where not it stands alone.
    fn parse_tagged(&mut self, tag: u64, valid: ExpectedSet) -> (r: Result<Value, Error>)
        requires
            old(self).inv(),
        ensures
            old(self).parsed(
                final(self),
                r,
                item_after(
                    Token::Tag(tag),
                    old(self).remaining(),
                    valid,
                    old(self).depth() as nat,
                    old(self).setup(),
                ),
            ),
        decreases old(self).depth(), 0nat,
    {
        proof {
            self.source().input().lemma_skip_none();
        }
        match self.recursion_checked() {
            Ok(()) => {},
            Err(e) => {
                return Err(e);
            },
        }
        let keep = self.tags_kept();
        let inner = self.deserialize_with(
            if keep {
                ExpectedSet::all()
            } else {
                valid
            },
        );
        self.recursion_done();
        match inner {
            Ok(v) => Ok(
                if keep {
                    Value::Tag(tag, Box::new(v))
                } else {
                    v
                },
            ),
            Err(e) => Err(e),
        }
    }

    /// Reads the elements of an array whose head has been read, up to its
    /// end.
    pub fn parse_array(&mut self, len: Option<usize>) -> (r: Result<Vec<Value>, Error>)
        requires
            old(self).inv(),
        ensures
            match array_of(old(self).remaining(), len, old(self).depth() as nat, old(self).setup()) {
                Ok((items, n)) => old(self).moved(final(self), n) && (r matches Ok(v) && items_view(v@)
                    == items),
                Err(f) => old(self).faulted(final(self), r, f),
            },
        decreases old(self).depth(), 0nat,
    {
        proof {
            self.source().input().lemma_skip_none();
        }
        match self.recursion_checked() {
            Ok(()) => {},
            Err(e) => {
                return Err(e);
            },
        }
        let ghost all = self.remaining();
        let ghost s = self.setup();
        let ghost d = self.depth() as nat;
        let ghost start = self.position();
        let mut access = SeqAccess::new(len);
        let mut out: Vec<Value> = Vec::new();
        let ghost mut taken: nat = 0;
        proof {
            assert(all.skip(0) =~= all);
            assert(items_view(out@) =~= Seq::<Item>::empty());
            match items_of(all, len, d, s) {
                Ok((more, m)) => {
                    assert(Seq::<Item>::empty() + more =~= more);
                },
                Err(f) => {},
            }
        }
        loop
            invariant
                old(self).same_choices(self),
                self.depth() == old(self).depth() - 1,
                self.depth() >= 1,
                self.tag_slot() == old(self).tag_slot(),
                taken <= all.len(),
                all == old(self).remaining(),
                start == old(self).position(),
                d == self.depth(),
                s == old(self).setup(),
                s == self.setup(),
                self.remaining() == all.skip(taken as int),
                self.position() == start + taken,
                items_of(all, len, d, s) == joined(
                    items_of(all.skip(taken as int), access.len, d, s),
                    items_view(out@),
                    taken,
                ),
            decreases all.len() - taken,
        {
            let ghost here = all.skip(taken as int);
            let ghost before = access.len;
            proof {
                assert(here.skip(0) =~= here);
                lemma_items_go_on(all, len, d, s, taken, before, items_view(out@));
            }
            match access.next_element_seed(self) {
                Err(e) => {
                    self.recursion_done();
                    return Err(e);
                },
                Ok(false) => {
                    let r = access.end(self);
                    self.recursion_done();
                    return match r {
                        Ok(()) => Ok(out),
                        Err(e) => Err(e),
                    };
                },
                Ok(true) => {
                    match self.deserialize_with(ExpectedSet::all()) {
                        Ok(v) => {
                            proof {
                                assert(items_view(out@.push(v)) =~= items_view(out@) + seq![v.item()]);
                                taken = taken + item_of(here, ExpectedSet::spec_all(), d, s)->Ok_0.1;
                            }
                            out.push(v);
                        },
                        Err(e) => {
                            self.recursion_done();
                            return Err(e);
                        },
                    }
                },
            }
        }
    }

    /// Reads the entries of a map whose head has been read, up to its end.
    pub fn parse_map(&mut self, len: Option<usize>) -> (r: Result<Vec<(Value, Value)>, Error>)
        requires
            old(self).inv(),
        ensures
            match map_of(old(self).remaining(), len, old(self).depth() as nat, old(self).setup()) {
                Ok((entries, n)) => old(self).moved(final(self), n) && (r matches Ok(v)
                    && entries_view(v@) == entries),
                Err(f) => old(self).faulted(final(self), r, f),
            },
        decreases old(self).depth(), 0nat,
    {
        proof {
            self.source().input().lemma_skip_none();
        }
        match self.recursion_checked() {
            Ok(()) => {},
            Err(e) => {
                return Err(e);
            },
        }
        let ghost all = self.remaining();
        let ghost s = self.setup();
        let ghost d = self.depth() as nat;
        let ghost start = self.position();
        let mut access = MapAccess::new(len, false);
        let mut out: Vec<(Value, Value)> = Vec::new();
        let ghost mut taken: nat = 0;
        proof {
            assert(all.skip(0) =~= all);
            assert(entries_view(out@) =~= Seq::<(Item, Item)>::empty());
            match entries_of(all, len, d, s) {
                Ok((more, m)) => {
                    assert(Seq::<(Item, Item)>::empty() + more =~= more);
                },
                Err(f) => {},
            }
        }
        loop
            invariant
                old(self).same_choices(self),
                self.depth() == old(self).depth() - 1,
                self.depth() >= 1,
                self.tag_slot() == old(self).tag_slot(),
                taken <= all.len(),
                all == old(self).remaining(),
                start == old(self).position(),
                d == self.depth(),
                s == old(self).setup(),
                s == self.setup(),
                !access.keyed_by_fields,
                self.remaining() == all.skip(taken as int),
                self.position() == start + taken,
                entries_of(all, len, d, s) == joined(
                    entries_of(all.skip(taken as int), access.len, d, s),
                    entries_view(out@),
                    taken,
                ),
            decreases all.len() - taken,
        {
            let ghost here = all.skip(taken as int);
            let ghost before = access.len;
            proof {
                assert(here.skip(0) =~= here);
                lemma_entries_go_on(all, len, d, s, taken, before, entries_view(out@));
            }
            match access.next_key_seed(self) {
                Err(e) => {
                    self.recursion_done();
                    return Err(e);
                },
                Ok(false) => {
                    let r = access.end(self);
                    self.recursion_done();
                    return match r {
                        Ok(()) => Ok(out),
                        Err(e) => Err(e),
                    };
                },
                Ok(true) => {
                    match self.parse_pair(&access) {
                        Ok(pair) => {
                            proof {
                                assert(entries_view(out@.push(pair)) =~= entries_view(out@) + seq![(pair.0.item(), pair.1.item())]);
                                taken = taken + pair_of(here, d, s)->Ok_0.1;
                            }
                            out.push(pair);
                        },
                        Err(e) => {
                            self.recursion_done();
                            return Err(e);
                        },
                    }
                },
            }
        }
    }

    /// Reads the value of an entry of a map whose key has been read.
    fn parse_entry_value(&mut self, access: &MapAccess) -> (r: Result<Value, Error>)
        requires
            old(self).inv(),
        ensures
            old(self).parsed(
                final(self),
                r,
                entry_value_of(old(self).remaining(), old(self).depth() as nat, old(self).setup()),
            ),
        decreases old(self).depth(), 3nat,
    {
        proof {
            self.source().input().lemma_skip_none();
        }
        match access.next_value_seed(self) {
            Ok(()) => {},
            Err(e) => {
                return Err(e);
            },
        }
        let ghost mid = *self;
        let r = self.deserialize_with(ExpectedSet::all());
        proof {
            let outcome = item_of(
                mid.remaining(),
                ExpectedSet::spec_all(),
                mid.depth() as nat,
                mid.setup(),
            );
            old(self).lemma_parsed_after(&mid, self, 0, r, outcome);
            assert(shifted(outcome, 0) == outcome);
        }
        r
    }

    /// A key and the value behind it are an entry.
    proof fn lemma_pair_parsed(&self, mid: &Self, end: &Self, key: Value, r: Result<Value, Error>)
        requires
            self.parsed(
                mid,
                Ok(key),
                item_of(self.remaining(), ExpectedSet::spec_all(), self.depth() as nat, self.setup()),
            ),
            mid.parsed(end, r, entry_value_of(mid.remaining(), mid.depth() as nat, mid.setup())),
        ensures
            match pair_of(self.remaining(), self.depth() as nat, self.setup()) {
                Ok((pair, n)) => self.moved(end, n) && (r matches Ok(v) && key.item() == pair.0
                    && v.item() == pair.1),
                Err(f) => self.faulted(end, r, f),
            },
    {
        let bytes = self.remaining();
        let d = self.depth() as nat;
        let s = self.setup();
        lemma_item_takes(bytes, ExpectedSet::spec_all(), d, s);
        let n = item_of(bytes, ExpectedSet::spec_all(), d, s)->Ok_0.1;
        match entry_value_of(bytes.skip(n as int), d, s) {
            Ok((value, k)) => {
                self.source().input().lemma_skip_twice(n, k);
            },
            Err(f) => {
                self.source().input().lemma_skip_twice(n, f.taken);
            },
        }
    }

    /// Reads an entry of a map: a key, then its value.
    fn parse_pair(&mut self, access: &MapAccess) -> (r: Result<(Value, Value), Error>)
        requires
            old(self).inv(),
        ensures
            match pair_of(old(self).remaining(), old(self).depth() as nat, old(self).setup()) {
                Ok((pair, n)) => old(self).moved(final(self), n) && (r matches Ok(v) && v.0.item()
                    == pair.0 && v.1.item() == pair.1),
                Err(f) => old(self).faulted(final(self), r, f),
            },
        decreases old(self).depth(), 4nat,
    {
        let key = match self.deserialize_with(ExpectedSet::all()) {
            Ok(key) => key,
            Err(e) => {
                return Err(e);
            },
        };
        let ghost mid = *self;
        let r = self.parse_entry_value(access);
        proof {
            old(self).lemma_pair_parsed(&mid, self, key, r);
        }
        match r {
            Ok(value) => Ok((key, value)),
            Err(e) => Err(e),
        }
    }
}

impl Item {
    /// Whether every length in the item can be addressed on this machine.
    pub open spec fn sized(self) -> bool
        decreases self,
    {
        match self {
            Item::Bytes(b) => b.len() <= usize::MAX,
            Item::Text(t) => encode_utf8(t).len() <= usize::MAX,
            Item::Array(items) => items.len() <= usize::MAX && forall|i: int|
                0 <= i < items.len() ==> (#[trigger] items[i]).sized(),
            Item::Mapping(entries) => entries.len() <= usize::MAX && forall|i: int|
                0 <= i < entries.len() ==> (#[trigger] entries[i]).0.sized() && entries[i].1.sized(),
            Item::Tag(_, inner) => inner.sized(),
            _ => true,
        }
    }

    /// Whether arrays, maps and tags are nested no deeper than `levels` in
    /// the item.
    pub open spec fn within(self, levels: nat) -> bool
        decreases self,
    {
        match self {
            Item::Array(items) => levels > 0 && forall|i: int|
                0 <= i < items.len() ==> (#[trigger] items[i]).within((levels - 1) as nat),
            Item::Mapping(entries) => levels > 0 && forall|i: int|
                0 <= i < entries.len() ==> (#[trigger] entries[i]).0.within((levels - 1) as nat)
                    && entries[i].1.within((levels - 1) as nat),
            Item::Tag(_, inner) => levels > 0 && inner.within((levels - 1) as nat),
            _ => true,
        }
    }

    /// Whether the item holds no tag.
    pub open spec fn tagless(self) -> bool
        decreases self,
    {
        match self {
            Item::Array(items) => forall|i: int| 0 <= i < items.len() ==> (#[trigger] items[i]).tagless(),
            Item::Mapping(entries) => forall|i: int|
                0 <= i < entries.len() ==> (#[trigger] entries[i]).0.tagless() && entries[i].1.tagless(),
            Item::Tag(_, _) => false,
            _ => true,
        }
    }

    /// Whether the item has an encoding: every integer in it has a
    /// magnitude that fits 64 bits.
    pub open spec fn encodable(self) -> bool
        decreases self,
    {
        match self {
            Item::Integer(v) => integer_in_range(v),
            Item::Array(items) => forall|i: int| 0 <= i < items.len() ==> (#[trigger] items[i]).encodable(),
            Item::Mapping(entries) => forall|i: int|
                0 <= i < entries.len() ==> (#[trigger] entries[i]).0.encodable()
                    && entries[i].1.encodable(),
            Item::Tag(_, inner) => inner.encodable(),
            _ => true,
        }
    }
}

/// What the encoder writes for an item, chunk by chunk: every string,
/// array and map with its length ahead, every head in the least width.
pub open spec fn item_chunks(item: Item) -> Seq<Seq<u8>>
    decreases item,
{
    match item {
        Item::Null => seq![seq![0xf6u8]],
        Item::Bool(b) => seq![seq![if b { 0xf5u8 } else { 0xf4u8 }]],
        Item::Integer(v) => seq![integer_head(v)],
        Item::Float(f) => seq![float_bytes(f)],
        Item::Bytes(b) => bytes_chunks(b),
        Item::Text(t) => text_chunks(encode_utf8(t)),
        Item::Array(items) => seq![head_bytes(4, items.len() as u64)] + items_chunks(items, 0),
        Item::Mapping(entries) => seq![head_bytes(5, entries.len() as u64)] + entries_chunks(
            entries,
            0,
        ),
        Item::Tag(tag, inner) => seq![head_bytes(6, tag)] + item_chunks(*inner),
    }
}

/// What the encoder writes for the elements of an array from the one at
/// `from` on.
pub open spec fn items_chunks(items: Seq<Item>, from: nat) -> Seq<Seq<u8>>
    decreases items, items.len() - from,
{
    if from >= items.len() {
        Seq::empty()
    } else {
        item_chunks(items[from as int]) + items_chunks(items, from + 1)
    }
}

/// What the encoder writes for the entries of a map from the one at `from`
/// on: each key, then its value.
pub open spec fn entries_chunks(entries: Seq<(Item, Item)>, from: nat) -> Seq<Seq<u8>>
    decreases entries, entries.len() - from,
{
    if from >= entries.len() {
        Seq::empty()
    } else {
        item_chunks(entries[from as int].0) + (item_chunks(entries[from as int].1) + entries_chunks(
            entries,
            from + 1,
        ))
    }
}

/// The encoding of an item.
pub open spec fn item_bytes(item: Item) -> Seq<u8> {
    concat(item_chunks(item))
}

impl<W: Write, O: SerializerOptions> Serializer<W, O> {
    /// Whether a write of an item ended as it should: where the item has
    /// an encoding, its chunks were offered to the sink; where it has none,
    /// the call failed, and did so with the complaint about the number
    /// unless the sink was full before.
    pub open spec fn wrote(&self, after: &Self, r: Result<(), Error>, item: Item) -> bool {
        if item.encodable() {
            self.emits(after, failure(r), item_chunks(item))
        } else {
            &&& r is Err
            &&& after.inv()
            &&& after.limit() == self.limit()
            &&& after.choices() == self.choices()
            &&& self.limit() is None ==> no_encoding(r)
        }
    }

    /// A sink that turned chunks down has a limit.
    pub proof fn lemma_failure_means_bounded(&self, after: &Self, e: Error, chunks: Seq<Seq<u8>>)
        requires
            self.emits(after, Some(e), chunks),
        ensures
            self.limit() is Some,
    {
        if self.limit() is None {
            lemma_unbounded_fits(self.written().len(), chunks);
        }
    }

    /// Writes a value.
    pub fn serialize_value(&mut self, value: &Value) -> (r: Result<(), Error>)
        requires
            old(self).inv(),
        ensures
            old(self).wrote(final(self), r, value.item()),
        decreases value,
    {
        match value {
            Value::Null => self.serialize_none(),
            Value::Bool(b) => self.serialize_bool(*b),
            Value::Integer(v) => self.serialize_i128(*v),
            Value::Float(f) => self.write_float(*f),
            Value::Bytes(b) => self.serialize_bytes(b.as_slice()),
            Value::Text(t) => self.serialize_str(t.as_str()),
            Value::Array(items) => self.serialize_items(items),
            Value::Mapping(entries) => self.serialize_entries(entries),
            Value::Tag(tag, inner) => {
                let ghost before = *self;
                let ghost first = seq![head_bytes(6, *tag)];
                let ghost second = item_chunks(inner.item());
                match self.write_u64(6, *tag) {
                    Ok(()) => {},
                    Err(e) => {
                        proof {
                            before.lemma_emits_then(self, self, Some(e), None, first, second);
                            before.lemma_failure_means_bounded(self, e, first);
                        }
                        return Err(e);
                    },
                }
                let ghost mid = *self;
                let r = self.serialize_value(inner);
                proof {
                    if inner.item().encodable() {
                        before.lemma_emits_then(&mid, self, None, failure(r), first, second);
                    }
                }
                r
            },
        }
    }

    /// Writes an array: the head with its length, then its elements.
    fn serialize_items(&mut self, items: &Vec<Value>) -> (r: Result<(), Error>)
        requires
            old(self).inv(),
        ensures
            old(self).wrote(final(self), r, Value::Array(*items).item()),
        decreases items, 1nat,
    {
        let ghost before = *self;
        let ghost views = items_view(items@);
        let ghost whole = Item::Array(views);
        let ghost head = seq![head_bytes(4, items.len() as u64)];
        proof {
            lemma_array_view(*items);
        }
        match self.write_u64(4, items.len() as u64) {
            Ok(()) => {},
            Err(e) => {
                proof {
                    before.lemma_emits_then(self, self, Some(e), None, head, items_chunks(views, 0));
                    before.lemma_failure_means_bounded(self, e, head);
                }
                return Err(e);
            },
        }
        let mut i: usize = 0;
        let ghost mut done: Seq<Seq<u8>> = head;
        proof {
            assert(done + items_chunks(views, 0) =~= item_chunks(whole));
        }
        while i < items.len()
            invariant
                i <= items@.len(),
                views == items_view(items@),
                whole == Item::Array(views),
                whole == Value::Array(*items).item(),
                before == *old(self),
                before.emits(self, None, done),
                done + items_chunks(views, i as nat) == item_chunks(whole),
                forall|j: int| 0 <= j < i ==> (#[trigger] views[j]).encodable(),
            decreases items@.len() - i,
        {
            let ghost mid = *self;
            let ghost element = item_chunks(views[i as int]);
            let ghost rest = items_chunks(views, (i + 1) as nat);
            let r = self.serialize_value(&items[i]);
            proof {
                assert(items@[i as int].item() == views[i as int]);
                assert(items_chunks(views, i as nat) == element + rest);
                assert(done + (element + rest) =~= (done + element) + rest);
            }
            match r {
                Ok(()) => {
                    proof {
                        before.lemma_emits_then(&mid, self, None, None, done, element);
                        done = done + element;
                    }
                },
                Err(e) => {
                    proof {
                        if views[i as int].encodable() {
                            before.lemma_emits_then(&mid, self, None, Some(e), done, element);
                            before.lemma_emits_then(self, self, Some(e), None, done + element, rest);
                            before.lemma_failure_means_bounded(self, e, done + element);
                        } else {
                            assert(!whole.encodable());
                        }
                    }
                    return Err(e);
                },
            }
            i += 1;
        }
        proof {
            assert(items_chunks(views, i as nat) =~= Seq::<Seq<u8>>::empty());
            assert(done + Seq::<Seq<u8>>::empty() =~= done);
            assert(whole.encodable());
        }
        Ok(())
    }

    /// Writes a map: the head with its length, then each key and its value.
    fn serialize_entries(&mut self, entries: &Vec<(Value, Value)>) -> (r: Result<(), Error>)
        requires
            old(self).inv(),
        ensures
            old(self).wrote(final(self), r, Value::Mapping(*entries).item()),
        decreases entries, 1nat,
    {
        let ghost before = *self;
        let ghost views = entries_view(entries@);
        let ghost whole = Item::Mapping(views);
        let ghost head = seq![head_bytes(5, entries.len() as u64)];
        proof {
            lemma_mapping_view(*entries);
        }
        match self.write_u64(5, entries.len() as u64) {
            Ok(()) => {},
            Err(e) => {
                proof {
                    before.lemma_emits_then(self, self, Some(e), None, head, entries_chunks(views, 0));
                    before.lemma_failure_means_bounded(self, e, head);
                }
                return Err(e);
            },
        }
        let mut i: usize = 0;
        let ghost mut done: Seq<Seq<u8>> = head;
        proof {
            assert(done + entries_chunks(views, 0) =~= item_chunks(whole));
        }
        while i < entries.len()
            invariant
                i <= entries@.len(),
                views == entries_view(entries@),
                whole == Item::Mapping(views),
                whole == Value::Mapping(*entries).item(),
                before == *old(self),
                before.emits(self, None, done),
                done + entries_chunks(views, i as nat) == item_chunks(whole),
                forall|j: int|
                    0 <= j < i ==> (#[trigger] views[j]).0.encodable() && views[j].1.encodable(),
            decreases entries@.len() - i,
        {
            let ghost mid = *self;
            let ghost key = item_chunks(views[i as int].0);
            let ghost value = item_chunks(views[i as int].1);
            let ghost rest = entries_chunks(views, (i + 1) as nat);
            proof {
                assert(entries@[i as int].0.item() == views[i as int].0);
                assert(entries@[i as int].1.item() == views[i as int].1);
                assert(entries_chunks(views, i as nat) == key + (value + rest));
                assert(done + (key + (value + rest)) =~= (done + key) + (value + rest));
                assert((done + key) + (value + rest) =~= ((done + key) + value) + rest);
            }
            match self.serialize_value(&entries[i].0) {
                Ok(()) => {
                    proof {
                        before.lemma_emits_then(&mid, self, None, None, done, key);
                    }
                },
                Err(e) => {
                    proof {
                        if views[i as int].0.encodable() {
                            before.lemma_emits_then(&mid, self, None, Some(e), done, key);
                            before.lemma_emits_then(self, self, Some(e), None, done + key, value + rest);
                            before.lemma_failure_means_bounded(self, e, done + key);
                        } else {
                            assert(!whole.encodable());
                        }
                    }
                    return Err(e);
                },
            }
            let ghost late = *self;
            match self.serialize_value(&entries[i].1) {
                Ok(()) => {
                    proof {
                        before.lemma_emits_then(&late, self, None, None, done + key, value);
                        done = (done + key) + value;
                    }
                },
                Err(e) => {
                    proof {
                        if views[i as int].1.encodable() {
                            before.lemma_emits_then(&late, self, None, Some(e), done + key, value);
                            before.lemma_emits_then(
                                self,
                                self,
                                Some(e),
                                None,
                                (done + key) + value,
                                rest,
                            );
                            before.lemma_failure_means_bounded(self, e, (done + key) + value);
                        } else {
                            assert(!whole.encodable());
                        }
                    }
                    return Err(e);
                },
            }
            i += 1;
        }
        proof {
            assert(entries_chunks(views, i as nat) =~= Seq::<Seq<u8>>::empty());
            assert(done + Seq::<Seq<u8>>::empty() =~= done);
            assert(whole.encodable());
        }
        Ok(())
    }
}

/// What a decode of all that is left of an input yields: the one data
/// item that it holds. What is left behind the item is trailing data.
pub open spec fn whole_of(bytes: Seq<u8>, depth: nat, s: Setup) -> Result<Item, Fault> {
    match item_of(bytes, ExpectedSet::spec_all(), depth, s) {
        Err(f) => Err(f),
        Ok((item, n)) => if n == bytes.len() {
            Ok(item)
        } else {
            Err(Fault { code: ErrorCode::TrailingData, at: n + 1, taken: n + 1 })
        },
    }
}

/// What a decode of a whole input with a new decoder yields.
pub open spec fn document_of(bytes: Seq<u8>, s: Setup) -> Result<Item, Fault> {
    whole_of(bytes, RECURSION_LIMIT as nat, s)
}

/// Whether `r` is what a decode of a whole input was to yield.
pub open spec fn is_document(r: Result<Value, Error>, outcome: Result<Item, Fault>) -> bool {
    match outcome {
        Ok(item) => r matches Ok(v) && v.item() == item,
        Err(f) => r matches Err(e) && e.code == f.code && e.offset == f.at,
    }
}

impl Value {
    /// Reads a value of any kind.
    pub fn deserialize<'de, R: Read<'de>, O: DeserializerOptions>(de: &mut Deserializer<R, O>) -> (r:
        Result<Value, Error>)
        requires
            old(de).inv(),
        ensures
            old(de).parsed(
                final(de),
                r,
                item_of(
                    old(de).remaining(),
                    ExpectedSet::spec_all(),
                    old(de).depth() as nat,
                    old(de).setup(),
                ),
            ),
    {
        de.deserialize_with(ExpectedSet::all())
    }

    /// Writes the value.
    pub fn serialize<W: Write, O: SerializerOptions>(&self, ser: &mut Serializer<W, O>) -> (r: Result<
        (),
        Error,
    >)
        requires
            old(ser).inv(),
        ensures
            old(ser).wrote(final(ser), r, self.item()),
    {
        ser.serialize_value(self)
    }
}

/// Reads the one value that is left of a decoder's input, and checks that
/// nothing is left behind it.
pub fn from_deserializer<'de, R: Read<'de>, O: DeserializerOptions>(de: &mut Deserializer<R, O>) -> (r:
    Result<Value, Error>)
    requires
        old(de).inv(),
    ensures
        match whole_of(old(de).remaining(), old(de).depth() as nat, old(de).setup()) {
            Ok(item) => (r matches Ok(v) && v.item() == item) && old(de).moved(
                final(de),
                old(de).remaining().len(),
            ),
            Err(f) => old(de).faulted(final(de), r, f),
        },
{
    let value = match Value::deserialize(de) {
        Ok(value) => value,
        Err(e) => {
            return Err(e);
        },
    };
    proof {
        lemma_item_takes(
            old(de).remaining(),
            ExpectedSet::spec_all(),
            old(de).depth() as nat,
            old(de).setup(),
        );
        let n = item_of(
            old(de).remaining(),
            ExpectedSet::spec_all(),
            old(de).depth() as nat,
            old(de).setup(),
        )->Ok_0.1;
        if n < old(de).remaining().len() {
            old(de).source().input().lemma_skip_twice(n, 1);
        } else {
            old(de).source().input().lemma_skip_twice(n, 0);
        }
    }
    match de.end() {
        Ok(()) => Ok(value),
        Err(e) => Err(e),
    }
}

/// Decodes a value from a slice. Tags are dropped.
pub fn from_slice(slice: &[u8]) -> (r: Result<Value, Error>)
    ensures
        is_document(r, document_of(slice@, Setup { direct: true, limit: None, keep_tags: false })),
{
    let mut deserializer = Deserializer::from_slice(slice);
    from_deserializer(&mut deserializer)
}

/// Decodes a value from a slice that may be written to in the course of
/// it: strings that come in pieces are put together in place. Tags are
/// dropped.
pub fn from_mut_slice(slice: &mut [u8]) -> (r: Result<Value, Error>)
    ensures
        is_document(
            r,
            document_of(old(slice)@, Setup { direct: true, limit: None, keep_tags: false }),
        ),
{
    let mut deserializer = Deserializer::from_mut_slice(slice);
    from_deserializer(&mut deserializer)
}

/// Decodes a value from a slice, with `scratch` as the buffer for strings
/// that come in pieces; one that is longer than `scratch` is an error. Tags
/// are dropped.
pub fn from_slice_with_scratch(slice: &[u8], scratch: &mut [u8]) -> (r: Result<Value, Error>)
    ensures
        is_document(
            r,
            document_of(
                slice@,
                Setup { direct: true, limit: Some(old(scratch)@.len()), keep_tags: false },
            ),
        ),
{
    let mut deserializer = Deserializer::from_slice_with_scratch(slice, scratch);
    from_deserializer(&mut deserializer)
}

/// Decodes a value from the bytes that a stream has delivered. Tags are
/// dropped.
pub fn from_reader(reader: Vec<u8>) -> (r: Result<Value, Error>)
    ensures
        is_document(r, document_of(reader@, Setup { direct: false, limit: None, keep_tags: false })),
{
    let mut deserializer = Deserializer::from_reader(reader);
    from_deserializer(&mut deserializer)
}

/// Whether `r` is what an encode of `item` into a fresh vector was to
/// yield: its encoding, or for an item without one the complaint about
/// the number.
pub open spec fn is_encoding(r: Result<Vec<u8>, Error>, item: Item) -> bool {
    if item.encodable() {
        r matches Ok(bytes) && bytes@ == item_bytes(item)
    } else {
        r matches Err(e) && e.offset == 0 && (e.code matches ErrorCode::Message(s) && s@
            == "The number can't be stored in CBOR"@)
    }
}

/// Encodes a value into a vector.
pub fn to_vec(value: &Value) -> (r: Result<Vec<u8>, Error>)
    ensures
        is_encoding(r, value.item()),
{
    let mut serializer = Serializer::new(Vec::new());
    let ghost before = serializer;
    let r = value.serialize(&mut serializer);
    proof {
        if value.item().encodable() {
            lemma_unbounded_fits(0, item_chunks(value.item()));
            lemma_all_fit_written(Seq::empty(), None, item_chunks(value.item()));
            assert(Seq::<u8>::empty() + item_bytes(value.item()) =~= item_bytes(value.item()));
        }
    }
    match r {
        Ok(()) => Ok(serializer.into_inner()),
        Err(e) => Err(e),
    }
}

/// Encodes a value into a vector, with indices in place of names. A value
/// holds no names of fields or variants, so that the encoding is the same.
pub fn to_vec_packed(value: &Value) -> (r: Result<Vec<u8>, Error>)
    ensures
        is_encoding(r, value.item()),
{
    let mut serializer = Serializer::new(Vec::new()).packed_format();
    let r = value.serialize(&mut serializer);
    proof {
        if value.item().encodable() {
            lemma_unbounded_fits(0, item_chunks(value.item()));
            lemma_all_fit_written(Seq::empty(), None, item_chunks(value.item()));
            assert(Seq::<u8>::empty() + item_bytes(value.item()) =~= item_bytes(value.item()));
        }
    }
    match r {
        Ok(()) => Ok(serializer.into_inner()),
        Err(e) => Err(e),
    }
}

/// Encodes a value and hands its encoding to a sink in one piece. A value
/// that has no encoding leaves the sink as it was.
pub fn to_writer<W: Write>(writer: &mut W, value: &Value) -> (r: Result<(), Error>)
    requires
        old(writer).inv(),
    ensures
        final(writer).inv(),
        final(writer).limit() == old(writer).limit(),
        if value.item().encodable() {
            write_outcome(
                old(writer).written(),
                old(writer).limit(),
                seq![item_bytes(value.item())],
                final(writer).written(),
                failure(r),
            )
        } else {
            no_encoding(r) && final(writer).written() == old(writer).written()
        },
{
    match to_vec(value) {
        Ok(bytes) => writer.write_all(bytes.as_slice()),
        Err(e) => Err(e),
    }
}

/// A decoder that yields the values of an input one after another, as an
/// iterator would.
pub struct StreamDeserializer<R, O = DefaultDeserializerOptions> {
    de: Deserializer<R, O>,
}

impl<'de, R: Read<'de>> StreamDeserializer<R, DefaultDeserializerOptions> {
    /// A stream decoder on a source, with the default choices.
    pub fn new(read: R) -> (s: Self)
        requires
            read.inv(),
        ensures
            s.decoder().fresh(),
            s.decoder().source() == read,
    {
        StreamDeserializer { de: Deserializer::new(read) }
    }
}

impl<'de, R: Read<'de>, O: DeserializerOptions> Deserializer<R, O> {
    /// Turns the decoder into one that yields value after value.
    pub fn into_iter(self) -> (s: StreamDeserializer<R, O>)
        ensures
            s.decoder() == self,
    {
        StreamDeserializer { de: self }
    }
}

impl<'de, R: Read<'de>, O: DeserializerOptions> StreamDeserializer<R, O> {
    /// The decoder that does the reading.
    pub closed spec fn decoder(&self) -> Deserializer<R, O> {
        self.de
    }

    /// The next value: nothing at the end of the input, else what a decode
    /// of one value gives.
    pub fn next(&mut self) -> (r: Option<Result<Value, Error>>)
        requires
            old(self).decoder().inv(),
        ensures
            final(self).decoder().inv(),
            if old(self).decoder().remaining().len() == 0 {
                r is None && old(self).decoder().advanced(&final(self).decoder(), 0)
            } else {
                r matches Some(value) && old(self).decoder().parsed(
                    &final(self).decoder(),
                    value,
                    item_of(
                        old(self).decoder().remaining(),
                        ExpectedSet::spec_all(),
                        old(self).decoder().depth() as nat,
                        old(self).decoder().setup(),
                    ),
                )
            },
    {
        proof {
            assert(self.de.remaining().skip(0) =~= self.de.remaining());
        }
        match self.de.peek() {
            Ok(Some(_)) => {
                let ghost mid = self.de;
                let r = Value::deserialize(&mut self.de);
                proof {
                    let outcome = item_of(
                        mid.remaining(),
                        ExpectedSet::spec_all(),
                        mid.depth() as nat,
                        mid.setup(),
                    );
                    old(self).de.lemma_parsed_after(&mid, &self.de, 0, r, outcome);
                    assert(shifted(outcome, 0) == outcome);
                }
                Some(r)
            },
            Ok(None) => None,
            Err(e) => Some(Err(e)),
        }
    }
}

impl<'de, R: Offset<'de>, O: DeserializerOptions> StreamDeserializer<R, O> {
    /// How many bytes have been taken.
    pub fn byte_offset(&self) -> (o: usize)
        requires
            self.decoder().inv(),
        ensures
            o == self.decoder().position(),
    {
        self.de.byte_offset()
    }
}

} // verus!
