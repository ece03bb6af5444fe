//! The decoder: reads data items from a byte source, one head at a time,
//! and says what each holds.

use vstd::prelude::*;
use vstd::string::StringSliceAdditionalSpecFns;
use vstd::utf8::{decode_utf8, encode_utf8_decode_utf8, valid_utf8};
use crate::error::{Error, ErrorCode, ExpectedSet};
use crate::read::{buffer_takes, Input, Offset};
pub use crate::read::{EitherLifetime, IoRead, MutSliceRead, Read, SliceRead, SliceReadFixed};
use crate::ser::Float;
use crate::wire::{argument_width, be_value, info_of, lemma_be_value_bound, lemma_pow256_values, major_of, pow256};

verus! {

/// What a decoder is willing to accept.
pub trait DeserializerOptions: Sized {
    /// Whether the keys of a map that stands for a struct may be names.
    spec fn spec_accept_named(&self) -> bool;

    /// Whether the keys of a map that stands for a struct may be indices.
    spec fn spec_accept_packed(&self) -> bool;

    /// Whether an enum variant with content may come as a map of one entry.
    spec fn spec_accept_standard_enums(&self) -> bool;

    /// Whether an enum variant with content may come as an array that
    /// starts with the variant.
    spec fn spec_accept_legacy_enums(&self) -> bool;

    /// Whether the keys of a map that stands for a struct may be names.
    fn accept_named(&self) -> (b: bool)
        ensures
            b == self.spec_accept_named(),
    ;

    /// Whether the keys of a map that stands for a struct may be indices.
    fn accept_packed(&self) -> (b: bool)
        ensures
            b == self.spec_accept_packed(),
    ;

    /// Whether an enum variant with content may come as a map of one entry.
    fn accept_standard_enums(&self) -> (b: bool)
        ensures
            b == self.spec_accept_standard_enums(),
    ;

    /// Whether an enum variant with content may come as an array.
    fn accept_legacy_enums(&self) -> (b: bool)
        ensures
            b == self.spec_accept_legacy_enums(),
    ;

    /// The same choices as a value that can be changed.
    fn to_custom(&self) -> (c: CustomDeserializerOptions)
        ensures
            c.named() == self.spec_accept_named(),
            c.packed() == self.spec_accept_packed(),
            c.standard_enums() == self.spec_accept_standard_enums(),
            c.legacy_enums() == self.spec_accept_legacy_enums(),
    {
        CustomDeserializerOptions {
            accept_named: self.accept_named(),
            accept_packed: self.accept_packed(),
            accept_standard_enums: self.accept_standard_enums(),
            accept_legacy_enums: self.accept_legacy_enums(),
        }
    }
}

/// The choices of a decoder that was told nothing: names and indices are
/// both accepted, enums as maps are, enums as arrays are not.
#[derive(Debug)]
pub struct DefaultDeserializerOptions;

impl DeserializerOptions for DefaultDeserializerOptions {
    open spec fn spec_accept_named(&self) -> bool {
        true
    }

    open spec fn spec_accept_packed(&self) -> bool {
        true
    }

    open spec fn spec_accept_standard_enums(&self) -> bool {
        true
    }

    open spec fn spec_accept_legacy_enums(&self) -> bool {
        false
    }

    fn accept_named(&self) -> (b: bool) {
        true
    }

    fn accept_packed(&self) -> (b: bool) {
        true
    }

    fn accept_standard_enums(&self) -> (b: bool) {
        true
    }

    fn accept_legacy_enums(&self) -> (b: bool) {
        false
    }
}

/// Choices made one by one.
#[derive(Debug)]
pub struct CustomDeserializerOptions {
    accept_named: bool,
    accept_packed: bool,
    accept_standard_enums: bool,
    accept_legacy_enums: bool,
}

impl Default for CustomDeserializerOptions {
    fn default() -> (c: Self)
        ensures
            c.named(),
            c.packed(),
            c.standard_enums(),
            !c.legacy_enums(),
    {
        Self::new()
    }
}

impl CustomDeserializerOptions {
    /// Whether names are accepted as the keys of a map that stands for a
    /// struct.
    pub closed spec fn named(&self) -> bool {
        self.accept_named
    }

    /// Whether indices are accepted as the keys of a map that stands for a
    /// struct.
    pub closed spec fn packed(&self) -> bool {
        self.accept_packed
    }

    /// Whether enums as maps are accepted.
    pub closed spec fn standard_enums(&self) -> bool {
        self.accept_standard_enums
    }

    /// Whether enums as arrays are accepted.
    pub closed spec fn legacy_enums(&self) -> bool {
        self.accept_legacy_enums
    }

    /// The choices of a decoder that was told nothing.
    pub fn new() -> (c: Self)
        ensures
            c.named(),
            c.packed(),
            c.standard_enums(),
            !c.legacy_enums(),
    {
        DefaultDeserializerOptions.to_custom()
    }

    /// The same choices, but for whether names are accepted.
    pub fn set_accept_named_format(self, new: bool) -> (c: Self)
        ensures
            c.named() == new,
            c.packed() == self.packed(),
            c.standard_enums() == self.standard_enums(),
            c.legacy_enums() == self.legacy_enums(),
    {
        let mut c = self;
        c.accept_named = new;
        c
    }

    /// The same choices, but for whether indices are accepted.
    pub fn set_accept_packed_format(self, new: bool) -> (c: Self)
        ensures
            c.named() == self.named(),
            c.packed() == new,
            c.standard_enums() == self.standard_enums(),
            c.legacy_enums() == self.legacy_enums(),
    {
        let mut c = self;
        c.accept_packed = new;
        c
    }

    /// The same choices, but for whether enums as maps are accepted.
    pub fn set_accept_standard_enums(self, new: bool) -> (c: Self)
        ensures
            c.named() == self.named(),
            c.packed() == self.packed(),
            c.standard_enums() == new,
            c.legacy_enums() == self.legacy_enums(),
    {
        let mut c = self;
        c.accept_standard_enums = new;
        c
    }

    /// The same choices, but for whether enums as arrays are accepted.
    pub fn set_accept_legacy_enums(self, new: bool) -> (c: Self)
        ensures
            c.named() == self.named(),
            c.packed() == self.packed(),
            c.standard_enums() == self.standard_enums(),
            c.legacy_enums() == new,
    {
        let mut c = self;
        c.accept_legacy_enums = new;
        c
    }
}

impl DeserializerOptions for CustomDeserializerOptions {
    open spec fn spec_accept_named(&self) -> bool {
        self.named()
    }

    open spec fn spec_accept_packed(&self) -> bool {
        self.packed()
    }

    open spec fn spec_accept_standard_enums(&self) -> bool {
        self.standard_enums()
    }

    open spec fn spec_accept_legacy_enums(&self) -> bool {
        self.legacy_enums()
    }

    fn accept_named(&self) -> (b: bool) {
        self.accept_named
    }

    fn accept_packed(&self) -> (b: bool) {
        self.accept_packed
    }

    fn accept_standard_enums(&self) -> (b: bool) {
        self.accept_standard_enums
    }

    fn accept_legacy_enums(&self) -> (b: bool) {
        self.accept_legacy_enums
    }
}

/// How a decode failed: what went wrong, at which place the error is
/// reported, and how much of the input had been taken by then. Places and
/// counts are in bytes from where the decode began.
pub struct Fault {
    /// What went wrong.
    pub code: ErrorCode,
    /// The place that the error reports. For an input that ends too early
    /// it is the end of the input; for text that is not UTF-8 it is where
    /// the text begins.
    pub at: nat,
    /// How many bytes the decode had taken when it stopped.
    pub taken: nat,
}

impl Fault {
    /// The same fault in a decode that began `by` bytes earlier.
    pub open spec fn later(self, by: nat) -> Fault {
        Fault { code: self.code, at: self.at + by, taken: self.taken + by }
    }
}

/// What the head of a data item says.
#[derive(Debug, Clone, Copy, PartialEq, Eq, Structural)]
pub enum Token {
    /// An unsigned integer.
    Unsigned(u64),
    /// A negative integer that fits 64 bits.
    Negative(i64),
    /// A negative integer below the least of 64 bits.
    BigNegative(i128),
    /// A byte string follows, of this length or in chunks.
    BytesStart(Option<usize>),
    /// A text string follows, of this length or in chunks.
    TextStart(Option<usize>),
    /// An array follows, of this many elements or up to a break.
    ArrayStart(Option<usize>),
    /// A map follows, of this many entries or up to a break.
    MapStart(Option<usize>),
    /// The next data item bears this tag.
    Tag(u64),
    /// A boolean.
    Bool(bool),
    /// Null or undefined.
    Null,
    /// A float, as it stands on the wire.
    Float(Float),
}

/// The limit on nesting that a new decoder starts with.
pub const RECURSION_LIMIT: u8 = 128;

/// The outcome of a decode step on the input `bytes`: a value and how many
/// bytes it took, or a fault.
pub open spec fn shifted<T>(outcome: Result<(T, nat), Fault>, by: nat) -> Result<(T, nat), Fault> {
    match outcome {
        Ok((v, n)) => Ok((v, n + by)),
        Err(f) => Err(f.later(by)),
    }
}

/// The first byte of the input; a fault where there is none.
pub open spec fn byte_of(bytes: Seq<u8>) -> Result<(u8, nat), Fault> {
    if bytes.len() == 0 {
        Err(Fault { code: ErrorCode::EofWhileParsingValue, at: 0, taken: 0 })
    } else {
        Ok((bytes[0], 1))
    }
}

/// The number that the first `width` bytes spell, most significant byte
/// first; a fault where there are fewer.
pub open spec fn uint_of(bytes: Seq<u8>, width: nat) -> Result<(u64, nat), Fault>
    recommends
        width <= 8,
{
    if bytes.len() < width {
        Err(Fault { code: ErrorCode::EofWhileParsingValue, at: bytes.len(), taken: 0 })
    } else {
        Ok((be_value(bytes.take(width as int)) as u64, width))
    }
}

/// The argument of a head whose initial byte is `byte` and which goes on
/// in `rest`: the additional information itself below 24, else the number
/// that the 1, 2, 4 or 8 following bytes spell.
pub open spec fn argument_after(byte: u8, rest: Seq<u8>) -> Result<(u64, nat), Fault>
    recommends
        info_of(byte) <= 27,
{
    if info_of(byte) < 24 {
        Ok((info_of(byte) as u64, 0))
    } else {
        uint_of(rest, argument_width(info_of(byte)))
    }
}

/// The length that the head of a string, an array or a map announces:
/// none where it is indefinite, and a fault where it is beyond what this
/// machine can address.
pub open spec fn length_after(byte: u8, rest: Seq<u8>) -> Result<(Option<usize>, nat), Fault>
    recommends
        info_of(byte) <= 27 || info_of(byte) == 31,
{
    if info_of(byte) == 31 {
        Ok((None, 0))
    } else {
        match argument_after(byte, rest) {
            Err(f) => Err(f),
            Ok((v, n)) => if v > usize::MAX {
                Err(Fault { code: ErrorCode::LengthOutOfRange, at: n, taken: n })
            } else {
                Ok((Some(v as usize), n))
            },
        }
    }
}

/// The negative integer `-1 - argument`, as narrow as it goes.
pub open spec fn negative_token(argument: u64) -> Token {
    if argument > i64::MAX {
        Token::BigNegative((-1 - argument) as i128)
    } else {
        Token::Negative((-1 - argument) as i64)
    }
}

/// The float of the width that `byte` announces, with the bit pattern
/// `bits`.
pub open spec fn float_of(byte: u8, bits: u64) -> Float {
    if byte == 0xf9 {
        Float::Half(bits as u16)
    } else if byte == 0xfa {
        Float::Single(bits as u32)
    } else {
        Float::Double(bits)
    }
}

/// What a head says whose initial byte is `byte` and which goes on in
/// `rest`, where `valid` is what the caller accepts, and how many bytes of
/// `rest` belong to it.
pub open spec fn token_after(byte: u8, rest: Seq<u8>, valid: ExpectedSet) -> Result<(Token, nat), Fault> {
    if !valid.allows(byte) {
        Err(Fault { code: ErrorCode::UnexpectedCode(valid, byte), at: 0, taken: 0 })
    } else {
        let major = major_of(byte);
        if major == 0 {
            match argument_after(byte, rest) {
                Err(f) => Err(f),
                Ok((v, n)) => Ok((Token::Unsigned(v), n)),
            }
        } else if major == 1 {
            match argument_after(byte, rest) {
                Err(f) => Err(f),
                Ok((v, n)) => Ok((negative_token(v), n)),
            }
        } else if major == 6 {
            match argument_after(byte, rest) {
                Err(f) => Err(f),
                Ok((v, n)) => Ok((Token::Tag(v), n)),
            }
        } else if major == 7 {
            if byte == 0xf4 || byte == 0xf5 {
                Ok((Token::Bool(byte == 0xf5), 0))
            } else if byte == 0xf6 || byte == 0xf7 {
                Ok((Token::Null, 0))
            } else {
                match argument_after(byte, rest) {
                    Err(f) => Err(f),
                    Ok((v, n)) => Ok((Token::Float(float_of(byte, v)), n)),
                }
            }
        } else {
            match length_after(byte, rest) {
                Err(f) => Err(f),
                Ok((len, n)) => Ok(
                    (
                        if major == 2 {
                            Token::BytesStart(len)
                        } else if major == 3 {
                            Token::TextStart(len)
                        } else if major == 4 {
                            Token::ArrayStart(len)
                        } else {
                            Token::MapStart(len)
                        },
                        n,
                    ),
                ),
            }
        }
    }
}

/// What the head at the start of `bytes` says, where `valid` is what the
/// caller accepts, and how many bytes the head takes.
pub open spec fn token_of(bytes: Seq<u8>, valid: ExpectedSet) -> Result<(Token, nat), Fault> {
    if bytes.len() == 0 {
        Err(Fault { code: ErrorCode::EofWhileParsingValue, at: 0, taken: 0 })
    } else {
        shifted(token_after(bytes[0], bytes.skip(1), valid), 1)
    }
}

/// The content of a string of `len` bytes: the next `len` bytes. They are
/// handed out as they lie in the input where the source does so
/// (`direct`), and go through its buffer where not.
pub open spec fn payload_of(bytes: Seq<u8>, len: nat, direct: bool, limit: Option<nat>) -> Result<
    (Seq<u8>, nat),
    Fault,
> {
    if bytes.len() < len {
        Err(Fault { code: ErrorCode::EofWhileParsingString, at: bytes.len(), taken: 0 })
    } else if !direct && !buffer_takes(0, limit, len) {
        Err(Fault { code: ErrorCode::ScratchTooSmall, at: 0, taken: 0 })
    } else {
        Ok((bytes.take(len as int), len))
    }
}

/// What stands next in a string of indefinite length of the given major
/// type: the break byte (nothing), or a chunk, which is a string of the
/// same major type and of definite length. `held` is how much the buffer
/// holds already.
pub open spec fn chunk_of(bytes: Seq<u8>, major: u8, held: nat, limit: Option<nat>) -> Result<
    (Option<Seq<u8>>, nat),
    Fault,
> {
    if bytes.len() == 0 {
        Err(Fault { code: ErrorCode::EofWhileParsingString, at: 0, taken: 0 })
    } else if bytes[0] == 0xff {
        Ok((None, 1))
    } else if major_of(bytes[0]) == major && info_of(bytes[0]) <= 27 {
        match length_after(bytes[0], bytes.skip(1)) {
            Err(f) => Err(f.later(1)),
            Ok((len, n)) => {
                let len = len.unwrap() as nat;
                let body = bytes.skip((1 + n) as int);
                if body.len() < len {
                    Err(Fault { code: ErrorCode::EofWhileParsingString, at: bytes.len(), taken: 1 + n })
                } else if !buffer_takes(held, limit, len) {
                    Err(Fault { code: ErrorCode::ScratchTooSmall, at: 1 + n, taken: 1 + n })
                } else {
                    Ok((Some(body.take(len as int)), 1 + n + len))
                }
            },
        }
    } else {
        Err(Fault { code: ErrorCode::UnexpectedCode(only_string(), bytes[0]), at: 1, taken: 1 })
    }
}

/// The content of a string of indefinite length: the contents of its
/// chunks in order, up to the break byte.
pub open spec fn chunks_of(bytes: Seq<u8>, major: u8, held: nat, limit: Option<nat>) -> Result<
    (Seq<u8>, nat),
    Fault,
>
    decreases bytes.len(),
{
    match chunk_of(bytes, major, held, limit) {
        Err(f) => Err(f),
        Ok((None, n)) => Ok((Seq::empty(), n)),
        Ok((Some(piece), n)) => prefixed(
            chunks_of(bytes.skip(n as int), major, held + piece.len(), limit),
            piece,
            n,
        ),
    }
}

/// An outcome with `content` put before what it yields and `by` added to
/// what it took.
pub open spec fn prefixed(outcome: Result<(Seq<u8>, nat), Fault>, content: Seq<u8>, by: nat) -> Result<
    (Seq<u8>, nat),
    Fault,
> {
    match outcome {
        Ok((more, n)) => Ok((content + more, n + by)),
        Err(f) => Err(f.later(by)),
    }
}

/// Putting a prefix before an outcome twice is putting both before it.
pub proof fn lemma_prefixed_twice(
    outcome: Result<(Seq<u8>, nat), Fault>,
    first: Seq<u8>,
    first_len: nat,
    second: Seq<u8>,
    second_len: nat,
)
    ensures
        prefixed(prefixed(outcome, second, second_len), first, first_len) == prefixed(
            outcome,
            first + second,
            first_len + second_len,
        ),
{
    match outcome {
        Ok((more, n)) => {
            assert(first + (second + more) =~= (first + second) + more);
        },
        Err(f) => {},
    }
}

/// One step of putting chunks together: with `held` in the buffer and
/// `taken` bytes of `all` behind, what stands next decides how the whole
/// goes on.
pub proof fn lemma_chunks_step(all: Seq<u8>, major: u8, limit: Option<nat>, taken: nat, held: Seq<u8>)
    requires
        taken <= all.len(),
        chunks_of(all, major, 0, limit) == prefixed(
            chunks_of(all.skip(taken as int), major, held.len(), limit),
            held,
            taken,
        ),
    ensures
        match chunk_of(all.skip(taken as int), major, held.len(), limit) {
            Ok((Some(piece), n)) => taken + n <= all.len() && n > 0 && all.skip(taken as int).skip(
                n as int,
            ) == all.skip((taken + n) as int) && chunks_of(all, major, 0, limit) == prefixed(
                chunks_of(all.skip((taken + n) as int), major, (held + piece).len(), limit),
                held + piece,
                taken + n,
            ),
            Ok((None, n)) => taken + n <= all.len() && all.skip(taken as int).skip(n as int)
                == all.skip((taken + n) as int) && chunks_of(all, major, 0, limit) == Ok::<
                (Seq<u8>, nat),
                Fault,
            >((held, taken + n)),
            Err(f) => taken + f.taken <= all.len() && all.skip(taken as int).skip(f.taken as int)
                == all.skip((taken + f.taken) as int) && chunks_of(all, major, 0, limit) == Err::<
                (Seq<u8>, nat),
                Fault,
            >(f.later(taken)),
        },
{
    let here = all.skip(taken as int);
    match chunk_of(here, major, held.len(), limit) {
        Ok((Some(piece), n)) => {
            assert(here.skip(n as int) =~= all.skip((taken + n) as int));
            lemma_prefixed_twice(
                chunks_of(all.skip((taken + n) as int), major, held.len() + piece.len(), limit),
                held,
                taken,
                piece,
                n,
            );
        },
        Ok((None, n)) => {
            assert(here.skip(n as int) =~= all.skip((taken + n) as int));
            assert(held + Seq::<u8>::empty() =~= held);
        },
        Err(f) => {
            assert(here.skip(f.taken as int) =~= all.skip((taken + f.taken) as int));
        },
    }
}

/// The set that admits a text string and nothing else.
pub open spec fn only_string() -> ExpectedSet {
    ExpectedSet { string: true, ..ExpectedSet::spec_none() }
}

/// The content of the string whose head has been read: `len` bytes where
/// the head gave a length, chunks up to a break where not.
pub open spec fn string_of(bytes: Seq<u8>, major: u8, len: Option<usize>, direct: bool, limit: Option<nat>) -> Result<
    (Seq<u8>, nat),
    Fault,
> {
    match len {
        Some(n) => payload_of(bytes, n as nat, direct, limit),
        None => chunks_of(bytes, major, 0, limit),
    }
}

/// The characters of the text string whose head has been read; a fault at
/// its first byte where its content is not UTF-8.
pub open spec fn text_of(bytes: Seq<u8>, len: Option<usize>, direct: bool, limit: Option<nat>) -> Result<
    (Seq<char>, nat),
    Fault,
> {
    match string_of(bytes, 3, len, direct, limit) {
        Err(f) => Err(f),
        Ok((content, n)) => if valid_utf8(content) {
            Ok((decode_utf8(content), n))
        } else {
            Err(Fault { code: ErrorCode::InvalidUtf8, at: 0, taken: n })
        },
    }
}

/// A text string handed out by a source: borrowed from the input (`Long`),
/// or from the source's buffer until the source is used again (`Short`).
#[derive(Debug)]
pub enum EitherStr<'short, 'long> {
    /// Text that lives until the source is used again.
    Short(&'short str),
    /// Text that lives as long as the input.
    Long(&'long str),
}

impl<'short, 'long> EitherStr<'short, 'long> {
    /// The characters, whichever way they are borrowed.
    pub open spec fn chars(&self) -> Seq<char> {
        match *self {
            EitherStr::Short(s) => s@,
            EitherStr::Long(s) => s@,
        }
    }

    /// Whether the text is borrowed from the input.
    pub open spec fn is_long(&self) -> bool {
        *self is Long
    }
}

/// `core::str::from_utf8`: the bytes as a string if they are UTF-8, and
/// nothing if they are not.
#[verifier::external_body]
fn str_from_utf8<'a>(buf: &'a [u8]) -> (r: Option<&'a str>)
    ensures
        r is Some <==> valid_utf8(buf@),
        r matches Some(s) ==> s.spec_bytes() == buf@,
{
    match core::str::from_utf8(buf) {
        Ok(s) => Some(s),
        Err(_) => None,
    }
}

/// Reads bytes as text; what is not UTF-8 is an error at `offset`.
pub fn convert_str<'a>(buf: &'a [u8], offset: u64) -> (r: Result<&'a str, Error>)
    ensures
        match r {
            Ok(s) => valid_utf8(buf@) && s@ == decode_utf8(buf@) && s.spec_bytes() == buf@,
            Err(e) => !valid_utf8(buf@) && e.code == ErrorCode::InvalidUtf8 && e.offset == offset,
        },
{
    match str_from_utf8(buf) {
        Some(s) => {
            proof {
                encode_utf8_decode_utf8(s@);
            }
            Ok(s)
        },
        None => Err(Error::syntax(ErrorCode::InvalidUtf8, offset)),
    }
}

/// The tag that `bytes` start with, if they start with one, and how many
/// bytes its head takes; where they start with anything else, or with
/// nothing, no tag and no byte.
pub open spec fn tag_of(bytes: Seq<u8>) -> Result<(Option<u64>, nat), Fault> {
    if bytes.len() > 0 && 0xc0 <= bytes[0] <= 0xdb {
        match argument_after(bytes[0], bytes.skip(1)) {
            Err(f) => Err(f.later(1)),
            Ok((tag, n)) => Ok((Some(tag), n + 1)),
        }
    } else {
        Ok((None, 0))
    }
}

/// What an array or a map holds next: whether an element or entry is due,
/// and how many are left to come behind it. With a length the count says
/// so; without one the break byte does. Where an element, an entry or the
/// break byte is due and the input is at its end, that is the fault `eof`.
pub open spec fn access_step(bytes: Seq<u8>, len: Option<usize>, eof: ErrorCode) -> Result<
    (bool, Option<usize>),
    Fault,
> {
    match len {
        Some(n) => if n == 0 {
            Ok((false, len))
        } else if bytes.len() == 0 {
            Err(Fault { code: eof, at: 0, taken: 0 })
        } else {
            Ok((true, Some((n - 1) as usize)))
        },
        None => if bytes.len() == 0 {
            Err(Fault { code: eof, at: 0, taken: 0 })
        } else {
            Ok((bytes[0] != 0xff, len))
        },
    }
}

/// Whether the value of a map's entry, which is due behind its key, can
/// be there: where the input is at its end, that is a fault of the map.
pub open spec fn value_due(bytes: Seq<u8>) -> Result<((), nat), Fault> {
    if bytes.len() == 0 {
        Err(Fault { code: ErrorCode::EofWhileParsingMap, at: 0, taken: 0 })
    } else {
        Ok(((), 0))
    }
}

/// Whether the key that `bytes` start with has a form that was ruled out:
/// an unsigned integer where indices are refused, a text string where
/// names are.
pub open spec fn key_refused(bytes: Seq<u8>, named: bool, packed: bool) -> bool {
    bytes.len() > 0 && ((bytes[0] <= 0x1b && !packed) || (0x60 <= bytes[0] <= 0x7f && !named))
}

/// How an array or a map ends once its consumer is done: with a length,
/// nothing may be left of the count; without one, the break byte is due
/// and is taken. Gives the number of bytes taken.
pub open spec fn access_end(bytes: Seq<u8>, len: Option<usize>, eof: ErrorCode) -> Result<((), nat), Fault> {
    match len {
        Some(n) => if n == 0 {
            Ok(((), 0))
        } else {
            Err(Fault { code: ErrorCode::TrailingData, at: 0, taken: 0 })
        },
        None => if bytes.len() == 0 {
            Err(Fault { code: eof, at: 0, taken: 0 })
        } else if bytes[0] == 0xff {
            Ok(((), 1))
        } else {
            Err(Fault { code: ErrorCode::TrailingData, at: 1, taken: 1 })
        },
    }
}

/// The forms in which an enum comes.
#[derive(Debug, Clone, Copy, PartialEq, Eq, Structural)]
pub enum EnumShape {
    /// The variant alone: an index or a name.
    Unit,
    /// An array that starts with the variant, of this length if it has one.
    Legacy(Option<usize>),
    /// A map of one entry, from the variant to its content.
    Standard,
}

/// The form of the enum that `bytes` start with, and how many bytes its
/// opening takes: an array is the legacy form and a map of one entry the
/// standard form, each a fault where it was ruled out; anything else is a
/// variant alone, a fault where both forms were ruled out.
pub open spec fn enum_shape_of(bytes: Seq<u8>, standard: bool, legacy: bool) -> Result<
    (EnumShape, nat),
    Fault,
> {
    if bytes.len() == 0 {
        Err(Fault { code: ErrorCode::EofWhileParsingValue, at: 0, taken: 0 })
    } else if 0x80 <= bytes[0] <= 0x9b || bytes[0] == 0x9f {
        if !legacy {
            Err(Fault { code: ErrorCode::WrongEnumFormat, at: 0, taken: 0 })
        } else {
            match length_after(bytes[0], bytes.skip(1)) {
                Err(f) => Err(f.later(1)),
                Ok((len, n)) => Ok((EnumShape::Legacy(len), n + 1)),
            }
        }
    } else if bytes[0] == 0xa1 {
        if !standard {
            Err(Fault { code: ErrorCode::WrongEnumFormat, at: 0, taken: 0 })
        } else {
            Ok((EnumShape::Standard, 1))
        }
    } else if !standard && !legacy {
        Err(Fault { code: ErrorCode::WrongEnumFormat, at: 0, taken: 0 })
    } else {
        Ok((EnumShape::Unit, 0))
    }
}

/// A decoder that reads from `R`.
#[derive(Debug)]
pub struct Deserializer<R, O = DefaultDeserializerOptions> {
    read: R,
    remaining_depth: u8,
    options: O,
    tag: Option<u64>,
    tags: bool,
}

impl<'a> Deserializer<SliceRead<'a>, DefaultDeserializerOptions> {
    /// A decoder that reads from a slice. Strings are borrowed from the
    /// slice where they lie there in one piece.
    pub fn from_slice(bytes: &'a [u8]) -> (d: Self)
        ensures
            d.fresh(),
            d.source().input() == (Input {
                remaining: bytes@,
                position: 0,
                buffer: Seq::empty(),
                buffer_limit: None,
            }),
    {
        Deserializer::new(SliceRead::new(bytes))
    }
}

impl Deserializer<IoRead, DefaultDeserializerOptions> {
    /// A decoder that reads what a stream has delivered. Strings are handed
    /// out as copies, never as borrows from the input.
    pub fn from_reader(reader: Vec<u8>) -> (d: Self)
        ensures
            d.fresh(),
            d.source().input() == (Input {
                remaining: reader@,
                position: 0,
                buffer: Seq::empty(),
                buffer_limit: None,
            }),
    {
        Deserializer::new(IoRead::new(reader))
    }
}

impl<'a> Deserializer<MutSliceRead<'a>, DefaultDeserializerOptions> {
    /// A decoder that reads from a slice it may write to, which doubles as
    /// its buffer. Strings are borrowed from the slice even where they come
    /// in pieces.
    pub fn from_mut_slice(bytes: &'a mut [u8]) -> (d: Self)
        ensures
            d.fresh(),
            d.source().input() == (Input {
                remaining: old(bytes)@,
                position: 0,
                buffer: Seq::empty(),
                buffer_limit: None,
            }),
    {
        Deserializer::new(MutSliceRead::new(bytes))
    }
}

impl<'a, 'b> Deserializer<SliceReadFixed<'a, 'b>, DefaultDeserializerOptions> {
    /// A decoder that reads from a slice and puts strings that come in
    /// pieces together in `scratch`.
    pub fn from_slice_with_scratch(bytes: &'a [u8], scratch: &'b mut [u8]) -> (d: Self)
        ensures
            d.fresh(),
            d.source().input() == (Input {
                remaining: bytes@,
                position: 0,
                buffer: Seq::empty(),
                buffer_limit: Some(old(scratch)@.len()),
            }),
    {
        Deserializer::new(SliceReadFixed::new(bytes, scratch))
    }
}

impl<'de, R: Read<'de>> Deserializer<R, DefaultDeserializerOptions> {
    /// A decoder on a source, with the default choices.
    pub fn new(read: R) -> (d: Self)
        requires
            read.inv(),
        ensures
            d.fresh(),
            d.source() == read,
            d.choices() == DefaultDeserializerOptions,
    {
        Deserializer::new_with_options(read, DefaultDeserializerOptions)
    }
}

impl<'de, R: Read<'de>, O: DeserializerOptions> Deserializer<R, O> {
    /// The source the decoder reads from.
    pub closed spec fn source(&self) -> R {
        self.read
    }

    /// How many more levels of arrays, maps and tags the decoder enters,
    /// plus one.
    pub closed spec fn depth(&self) -> u8 {
        self.remaining_depth
    }

    /// The choices the decoder was made with.
    pub closed spec fn choices(&self) -> O {
        self.options
    }

    /// The tag of the value that is being handed over, if it has one.
    pub closed spec fn tag_slot(&self) -> Option<u64> {
        self.tag
    }

    /// Whether tags are handed on; where not, a tagged value stands for the
    /// value alone.
    pub closed spec fn keeps_tags(&self) -> bool {
        self.tags
    }

    /// What makes the decoder well-formed.
    pub open spec fn inv(&self) -> bool {
        self.source().inv() && self.depth() >= 1
    }

    /// The input that has not been taken yet.
    pub open spec fn remaining(&self) -> Seq<u8> {
        self.source().input().remaining
    }

    /// How many bytes have been taken.
    pub open spec fn position(&self) -> nat {
        self.source().input().position
    }

    /// Whether the decoder is as it was made: nothing is nested, no tag is
    /// pending, tags are dropped, nothing was read.
    pub open spec fn fresh(&self) -> bool {
        &&& self.inv()
        &&& self.depth() == RECURSION_LIMIT
        &&& self.tag_slot() is None
        &&& !self.keeps_tags()
    }

    /// Whether `after` has the choices of this decoder and a source of the
    /// same kind.
    pub open spec fn same_choices(&self, after: &Self) -> bool {
        &&& after.source().inv()
        &&& after.choices() == self.choices()
        &&& after.keeps_tags() == self.keeps_tags()
        &&& after.source().input().buffer_limit == self.source().input().buffer_limit
    }

    /// Whether `after` differs from this decoder in its source alone.
    pub open spec fn same_setup(&self, after: &Self) -> bool {
        &&& self.same_choices(after)
        &&& after.depth() >= 1
        &&& after.depth() == self.depth()
        &&& after.tag_slot() == self.tag_slot()
    }

    /// Whether `after` is this decoder with its next `n` bytes taken and
    /// its buffer as it was.
    pub open spec fn advanced(&self, after: &Self, n: nat) -> bool {
        &&& self.same_setup(after)
        &&& n <= self.remaining().len()
        &&& after.source().input() == self.source().input().skip(n)
    }

    /// Whether `after` is this decoder with its next `n` bytes taken; the
    /// buffer may have been used.
    pub open spec fn moved(&self, after: &Self, n: nat) -> bool {
        &&& self.same_setup(after)
        &&& n <= self.remaining().len()
        &&& self.source().input().skip(n).same_but_buffer(after.source().input())
    }

    /// Whether a step that was to end as `outcome` says did so: on success
    /// the value is returned and its bytes are taken; on a fault the step
    /// stopped there.
    pub open spec fn decoded<T>(&self, after: &Self, r: Result<T, Error>, outcome: Result<(T, nat), Fault>) -> bool {
        match outcome {
            Ok((v, n)) => r == Ok::<T, Error>(v) && self.advanced(after, n),
            Err(f) => self.stopped(after, r, f),
        }
    }

    /// Whether a step stopped at `fault`: the error bears its code and its
    /// place, what the step had taken is taken, and nothing else changed.
    pub open spec fn stopped<T>(&self, after: &Self, r: Result<T, Error>, fault: Fault) -> bool {
        &&& self.failed(r, fault)
        &&& self.advanced(after, fault.taken)
    }

    /// Whether a step stopped at `fault`: the error bears its code and its
    /// place, and what the step had taken is taken; the buffer may have
    /// been used.
    pub open spec fn faulted<T>(&self, after: &Self, r: Result<T, Error>, fault: Fault) -> bool {
        &&& self.failed(r, fault)
        &&& self.moved(after, fault.taken)
    }

    /// Whether `r` is the error for `fault`, met in a step that began here.
    pub open spec fn failed<T>(&self, r: Result<T, Error>, fault: Fault) -> bool {
        r matches Err(e) && e.code == fault.code && e.offset == self.position() + fault.at
    }

    /// A decoder on a source, with the choices given.
    pub fn new_with_options(read: R, options: O) -> (d: Self)
        requires
            read.inv(),
        ensures
            d.inv(),
            d.source() == read,
            d.choices() == options,
            d.depth() == RECURSION_LIMIT,
            d.tag_slot() is None,
            !d.keeps_tags(),
    {
        Deserializer { read, remaining_depth: 128, options, tag: None, tags: false }
    }

    /// The same decoder, which hands tags on if `keep` is set and drops
    /// them if not.
    pub fn keep_tags(self, keep: bool) -> (d: Self)
        ensures
            d.source() == self.source(),
            d.choices() == self.choices(),
            d.depth() == self.depth(),
            d.tag_slot() == self.tag_slot(),
            d.keeps_tags() == keep,
    {
        let mut d = self;
        d.tags = keep;
        d
    }

    /// The same decoder, refusing names as the keys of a map that stands
    /// for a struct.
    pub fn disable_named_format(self) -> (d: Deserializer<R, CustomDeserializerOptions>)
        ensures
            d.source() == self.source(),
            d.depth() == self.depth(),
            d.tag_slot() == self.tag_slot(),
            d.keeps_tags() == self.keeps_tags(),
            !d.choices().named(),
            d.choices().packed() == self.choices().spec_accept_packed(),
            d.choices().standard_enums() == self.choices().spec_accept_standard_enums(),
            d.choices().legacy_enums() == self.choices().spec_accept_legacy_enums(),
    {
        Deserializer {
            read: self.read,
            remaining_depth: self.remaining_depth,
            options: self.options.to_custom().set_accept_named_format(false),
            tag: self.tag,
            tags: self.tags,
        }
    }

    /// The same decoder, refusing indices as the keys of a map that stands
    /// for a struct.
    pub fn disable_packed_format(self) -> (d: Deserializer<R, CustomDeserializerOptions>)
        ensures
            d.source() == self.source(),
            d.depth() == self.depth(),
            d.tag_slot() == self.tag_slot(),
            d.keeps_tags() == self.keeps_tags(),
            d.choices().named() == self.choices().spec_accept_named(),
            !d.choices().packed(),
            d.choices().standard_enums() == self.choices().spec_accept_standard_enums(),
            d.choices().legacy_enums() == self.choices().spec_accept_legacy_enums(),
    {
        Deserializer {
            read: self.read,
            remaining_depth: self.remaining_depth,
            options: self.options.to_custom().set_accept_packed_format(false),
            tag: self.tag,
            tags: self.tags,
        }
    }

    /// The same decoder, refusing enums written as maps.
    pub fn disable_standard_enums(self) -> (d: Deserializer<R, CustomDeserializerOptions>)
        ensures
            d.source() == self.source(),
            d.depth() == self.depth(),
            d.tag_slot() == self.tag_slot(),
            d.keeps_tags() == self.keeps_tags(),
            d.choices().named() == self.choices().spec_accept_named(),
            d.choices().packed() == self.choices().spec_accept_packed(),
            !d.choices().standard_enums(),
            d.choices().legacy_enums() == self.choices().spec_accept_legacy_enums(),
    {
        Deserializer {
            read: self.read,
            remaining_depth: self.remaining_depth,
            options: self.options.to_custom().set_accept_standard_enums(false),
            tag: self.tag,
            tags: self.tags,
        }
    }

    /// The same decoder, refusing enums written as arrays.
    pub fn disable_legacy_enums(self) -> (d: Deserializer<R, CustomDeserializerOptions>)
        ensures
            d.source() == self.source(),
            d.depth() == self.depth(),
            d.tag_slot() == self.tag_slot(),
            d.keeps_tags() == self.keeps_tags(),
            d.choices().named() == self.choices().spec_accept_named(),
            d.choices().packed() == self.choices().spec_accept_packed(),
            d.choices().standard_enums() == self.choices().spec_accept_standard_enums(),
            !d.choices().legacy_enums(),
    {
        Deserializer {
            read: self.read,
            remaining_depth: self.remaining_depth,
            options: self.options.to_custom().set_accept_legacy_enums(false),
            tag: self.tag,
            tags: self.tags,
        }
    }

    /// Checks that the input is at its end: what is left behind a value is
    /// an error.
    pub fn end(&mut self) -> (r: Result<(), Error>)
        requires
            old(self).inv(),
        ensures
            old(self).decoded(
                final(self),
                r,
                if old(self).remaining().len() == 0 {
                    Ok(((), 0))
                } else {
                    Err(Fault { code: ErrorCode::TrailingData, at: 1, taken: 1 })
                },
            ),
    {
        match self.next() {
            Ok(Some(_)) => Err(self.error(ErrorCode::TrailingData)),
            Ok(None) => Ok(()),
            Err(e) => Err(e),
        }
    }

    /// Takes the next byte, if there is one.
    pub fn next(&mut self) -> (r: Result<Option<u8>, Error>)
        requires
            old(self).inv(),
        ensures
            if old(self).remaining().len() == 0 {
                r == Ok::<Option<u8>, Error>(None) && old(self).advanced(final(self), 0)
            } else {
                r == Ok::<Option<u8>, Error>(Some(old(self).remaining()[0])) && old(self).advanced(
                    final(self),
                    1,
                )
            },
    {
        assert(self.remaining().skip(0) =~= self.remaining());
        self.read.next()
    }

    /// Shows the next byte, if there is one, and leaves it in place.
    pub fn peek(&mut self) -> (r: Result<Option<u8>, Error>)
        requires
            old(self).inv(),
        ensures
            old(self).advanced(final(self), 0),
            r == Ok::<Option<u8>, Error>(
                if old(self).remaining().len() == 0 {
                    None
                } else {
                    Some(old(self).remaining()[0])
                },
            ),
    {
        assert(self.remaining().skip(0) =~= self.remaining());
        self.read.peek()
    }

    /// Takes the byte that `peek` has shown.
    pub fn consume(&mut self)
        requires
            old(self).inv(),
            old(self).remaining().len() > 0,
        ensures
            old(self).advanced(final(self), 1),
    {
        self.read.discard();
    }

    /// An error with the given code at the place the decoder has reached.
    pub fn error(&self, reason: ErrorCode) -> (e: Error)
        requires
            self.inv(),
        ensures
            e.code == reason,
            e.offset == self.position(),
    {
        let offset = self.read.offset();
        Error::syntax(reason, offset)
    }

    /// Reads an argument of `2^(magnitude - 1)` bytes as a big-endian
    /// number.
    pub fn parse_uint(&mut self, magnitude: u8) -> (r: Result<u64, Error>)
        requires
            old(self).inv(),
            1 <= magnitude <= 4,
        ensures
            old(self).decoded(
                final(self),
                r,
                uint_of(old(self).remaining(), argument_width((23 + magnitude) as u8)),
            ),
    {
        let width: usize = if magnitude == 1 {
            1
        } else if magnitude == 2 {
            2
        } else if magnitude == 3 {
            4
        } else {
            8
        };
        proof {
            self.source().input().lemma_skip_none();
        }
        let mut buf: [u8; 8] = [0, 0, 0, 0, 0, 0, 0, 0];
        let (_, view) = buf.split_at_mut(8 - width);
        match self.read.read_into(view) {
            Ok(()) => {},
            Err(e) => {
                return Err(e);
            },
        }
        let ghost digits = old(self).remaining().take(width as int);
        let mut value: u64 = 0;
        let mut i: usize = 0;
        while i < width
            invariant
                i <= width <= 8,
                view@ == digits,
                digits.len() == width,
                value == be_value(digits.take(i as int)),
            decreases width - i,
        {
            proof {
                lemma_be_value_bound(digits.take(i as int));
                lemma_pow256_values();
                assert(digits.take(i + 1).drop_last() =~= digits.take(i as int));
                assert(digits.take(i + 1).last() == digits[i as int]);
                assert(value * 256 + 255 < 0x1_0000_0000_0000_0000) by {
                    assert(pow256(i as nat) <= pow256(7)) by {
                        lemma_pow256_values();
                    }
                }
            }
            value = value * 256 + view[i] as u64;
            i += 1;
        }
        assert(digits.take(width as int) =~= digits);
        Ok(value)
    }

    /// A step that follows `n` taken bytes ends where it ends, `n` bytes
    /// further on.
    pub proof fn lemma_decoded_after<T>(
        &self,
        mid: &Self,
        end: &Self,
        n: nat,
        r: Result<T, Error>,
        outcome: Result<(T, nat), Fault>,
    )
        requires
            self.advanced(mid, n),
            mid.decoded(end, r, outcome),
        ensures
            self.decoded(end, r, shifted(outcome, n)),
    {
        match outcome {
            Ok((v, m)) => {
                self.source().input().lemma_skip_twice(n, m);
            },
            Err(f) => {
                self.source().input().lemma_skip_twice(n, f.taken);
            },
        }
    }

    /// Takes the initial byte of a data item.
    pub fn parse_u8(&mut self) -> (r: Result<u8, Error>)
        requires
            old(self).inv(),
        ensures
            old(self).decoded(final(self), r, byte_of(old(self).remaining())),
    {
        match self.next() {
            Ok(Some(byte)) => Ok(byte),
            Ok(None) => Err(self.error(ErrorCode::EofWhileParsingValue)),
            Err(e) => Err(e),
        }
    }

    /// Reads the argument of a head whose initial byte, `byte`, has been
    /// taken.
    fn parse_argument(&mut self, byte: u8) -> (r: Result<u64, Error>)
        requires
            old(self).inv(),
            info_of(byte) <= 27,
        ensures
            old(self).decoded(final(self), r, argument_after(byte, old(self).remaining())),
    {
        let info = byte % 32;
        if info < 24 {
            assert(self.remaining().skip(0) =~= self.remaining());
            Ok(info as u64)
        } else {
            self.parse_uint(info - 23)
        }
    }

    /// Reads the length in the head of a string, an array or a map whose
    /// initial byte, `byte`, has been taken.
    fn parse_length(&mut self, byte: u8) -> (r: Result<Option<usize>, Error>)
        requires
            old(self).inv(),
            info_of(byte) <= 27 || info_of(byte) == 31,
        ensures
            old(self).decoded(final(self), r, length_after(byte, old(self).remaining())),
    {
        if byte % 32 == 31 {
            assert(self.remaining().skip(0) =~= self.remaining());
            Ok(None)
        } else {
            let len = match self.parse_argument(byte) {
                Ok(len) => len,
                Err(e) => {
                    return Err(e);
                },
            };
            if len > usize::MAX as u64 {
                return Err(self.error(ErrorCode::LengthOutOfRange));
            }
            Ok(Some(len as usize))
        }
    }

    /// Reads a float of `2^(magnitude - 1)` bytes.
    pub fn parse_float(&mut self, magnitude: u8) -> (r: Result<Float, Error>)
        requires
            old(self).inv(),
            2 <= magnitude <= 4,
        ensures
            old(self).decoded(
                final(self),
                r,
                match uint_of(old(self).remaining(), argument_width((23 + magnitude) as u8)) {
                    Ok((bits, n)) => Ok((float_of((0xf7 + magnitude) as u8, bits), n)),
                    Err(f) => Err(f),
                },
            ),
    {
        let bits = match self.parse_uint(magnitude) {
            Ok(bits) => bits,
            Err(e) => {
                return Err(e);
            },
        };
        proof {
            lemma_pow256_values();
            lemma_be_value_bound(
                old(self).remaining().take(argument_width((23 + magnitude) as u8) as int),
            );
        }
        if magnitude == 2 {
            Ok(Float::Half(bits as u16))
        } else if magnitude == 3 {
            Ok(Float::Single(bits as u32))
        } else {
            Ok(Float::Double(bits))
        }
    }

    /// Says what a head holds whose initial byte, `byte`, has been taken.
    fn parse_token(&mut self, byte: u8, valid: ExpectedSet) -> (r: Result<Token, Error>)
        requires
            old(self).inv(),
        ensures
            old(self).decoded(final(self), r, token_after(byte, old(self).remaining(), valid)),
    {
        proof {
            assert(self.remaining().skip(0) =~= self.remaining());
        }
        if byte <= 0x1b && valid.int_pos {
            // Major type 0: an unsigned integer
            match self.parse_argument(byte) {
                Ok(value) => Ok(Token::Unsigned(value)),
                Err(e) => Err(e),
            }
        } else if 0x20 <= byte && byte <= 0x3b && valid.int_neg {
            // Major type 1: a negative integer
            match self.parse_argument(byte) {
                Ok(value) => {
                    if value > i64::MAX as u64 {
                        Ok(Token::BigNegative(-1 - value as i128))
                    } else {
                        Ok(Token::Negative(-1 - value as i64))
                    }
                },
                Err(e) => Err(e),
            }
        } else if (0x40 <= byte && byte <= 0x5b || byte == 0x5f) && valid.bytes {
            // Major type 2: a byte string
            match self.parse_length(byte) {
                Ok(len) => Ok(Token::BytesStart(len)),
                Err(e) => Err(e),
            }
        } else if (0x60 <= byte && byte <= 0x7b || byte == 0x7f) && valid.string {
            // Major type 3: a text string
            match self.parse_length(byte) {
                Ok(len) => Ok(Token::TextStart(len)),
                Err(e) => Err(e),
            }
        } else if (0x80 <= byte && byte <= 0x9b || byte == 0x9f) && valid.array {
            // Major type 4: an array of data items
            match self.parse_length(byte) {
                Ok(len) => Ok(Token::ArrayStart(len)),
                Err(e) => Err(e),
            }
        } else if (0xa0 <= byte && byte <= 0xbb || byte == 0xbf) && valid.map {
            // Major type 5: a map of pairs of data items
            match self.parse_length(byte) {
                Ok(len) => Ok(Token::MapStart(len)),
                Err(e) => Err(e),
            }
        } else if 0xc0 <= byte && byte <= 0xdb {
            // Major type 6: a tag on the data item that follows
            match self.parse_argument(byte) {
                Ok(tag) => Ok(Token::Tag(tag)),
                Err(e) => Err(e),
            }
        } else if 0xf4 <= byte && byte <= 0xf5 && valid.boolean {
            // Major type 7: the simple values and the floats
            Ok(Token::Bool(byte == 0xf5))
        } else if 0xf6 <= byte && byte <= 0xf7 && valid.null {
            Ok(Token::Null)
        } else if 0xf9 <= byte && byte <= 0xfb && valid.float {
            match self.parse_float(byte - 0xf9 + 2) {
                Ok(value) => Ok(Token::Float(value)),
                Err(e) => Err(e),
            }
        } else {
            Err(self.error(ErrorCode::UnexpectedCode(valid, byte)))
        }
    }

    /// Reads the head of the next data item and says what it holds. For a
    /// string, an array, a map or a tag the content is still to come.
    pub fn parse_value(&mut self, valid: ExpectedSet) -> (r: Result<Token, Error>)
        requires
            old(self).inv(),
        ensures
            old(self).decoded(final(self), r, token_of(old(self).remaining(), valid)),
    {
        let byte = match self.parse_u8() {
            Ok(byte) => byte,
            Err(e) => {
                return Err(e);
            },
        };
        let ghost mid = *self;
        let r = self.parse_token(byte, valid);
        proof {
            old(self).lemma_decoded_after(
                &mid,
                self,
                1,
                r,
                token_after(byte, mid.remaining(), valid),
            );
        }
        r
    }

    /// Whether the source hands reads out as they lie in the input.
    pub open spec fn direct(&self) -> bool {
        R::borrows_reads()
    }

    /// How many bytes the buffer of the source takes, if it is bounded.
    pub open spec fn buffer_limit(&self) -> Option<nat> {
        self.source().input().buffer_limit
    }

    /// Whether a step that was to yield bytes ended as `outcome` says.
    pub open spec fn decoded_bytes(
        &self,
        after: &Self,
        r: Result<EitherLifetime<'_, '_>, Error>,
        outcome: Result<(Seq<u8>, nat), Fault>,
        long: bool,
    ) -> bool {
        match outcome {
            Ok((content, n)) => self.moved(after, n) && (r matches Ok(b) && b.bytes() == content
                && b.is_long() == long),
            Err(f) => self.faulted(after, r, f),
        }
    }

    /// Reads what stands next in a string of indefinite length: takes the
    /// break byte, or appends one chunk to the buffer, and says whether it
    /// was a chunk.
    fn read_chunk(&mut self, major: u8) -> (r: Result<bool, Error>)
        requires
            old(self).inv(),
            major == 2 || major == 3,
        ensures
            match chunk_of(
                old(self).remaining(),
                major,
                old(self).source().input().buffer.len(),
                old(self).buffer_limit(),
            ) {
                Ok((None, n)) => r == Ok::<bool, Error>(false) && old(self).advanced(final(self), n),
                Ok((Some(piece), n)) => r == Ok::<bool, Error>(true) && old(self).same_setup(
                    final(self),
                ) && n <= old(self).remaining().len() && final(self).source().input() == old(self).source().input().skip(n).with_buffer(old(self).source().input().buffer + piece),
                Err(f) => old(self).stopped(final(self), r, f),
            },
    {
        let ghost bytes = self.remaining();
        proof {
            self.source().input().lemma_skip_none();
        }
        let byte = match self.next() {
            Ok(Some(byte)) => byte,
            Ok(None) => {
                return Err(self.error(ErrorCode::EofWhileParsingString));
            },
            Err(e) => {
                return Err(e);
            },
        };
        if byte == 0xff {
            return Ok(false);
        }
        if byte / 32 != major || byte % 32 > 27 {
            return Err(self.error(ErrorCode::UnexpectedCode(ExpectedSet::string(), byte)));
        }
        let ghost after_byte = *self;
        let len = match self.parse_length(byte) {
            Ok(Some(len)) => len,
            Ok(None) => {
                return Err(self.error(ErrorCode::LengthOutOfRange));
            },
            Err(e) => {
                proof {
                    let f = length_after(byte, after_byte.remaining())->Err_0;
                    old(self).source().input().lemma_skip_twice(1, f.taken);
                }
                return Err(e);
            },
        };
        let ghost n = (self.position() - after_byte.position()) as nat;
        proof {
            old(self).source().input().lemma_skip_twice(1, n);
        }
        match self.read.read_to_buffer(len) {
            Ok(()) => {
                proof {
                    assert(bytes.skip((1 + n) as int).skip(len as int) =~= bytes.skip(
                        (1 + n + len) as int,
                    ));
                }
                Ok(true)
            },
            Err(e) => Err(e),
        }
    }

    /// Puts the chunks of a string of indefinite length together in the
    /// buffer, up to the break byte.
    fn read_indefinite(&mut self, major: u8) -> (r: Result<(), Error>)
        requires
            old(self).inv(),
            major == 2 || major == 3,
        ensures
            match chunks_of(old(self).remaining(), major, 0, old(self).buffer_limit()) {
                Ok((content, n)) => r is Ok && old(self).moved(final(self), n) && final(
                    self).source().input().buffer == content,
                Err(f) => old(self).faulted(final(self), r, f),
            },
    {
        self.read.clear_buffer();
        let ghost all = self.remaining();
        let ghost limit = self.buffer_limit();
        let ghost start = self.position();
        let ghost mut taken: nat = 0;
        proof {
            assert(all.skip(0) =~= all);
            assert(Seq::<u8>::empty() + Seq::<u8>::empty() =~= Seq::<u8>::empty());
        }
        loop
            invariant
                major == 2 || major == 3,
                old(self).same_setup(self),
                taken <= all.len(),
                all == old(self).remaining(),
                start == old(self).position(),
                limit == old(self).buffer_limit(),
                self.remaining() == all.skip(taken as int),
                self.position() == start + taken,
                chunks_of(all, major, 0, limit) == prefixed(
                    chunks_of(all.skip(taken as int), major, self.source().input().buffer.len(), limit),
                    self.source().input().buffer,
                    taken,
                ),
            decreases all.len() - taken,
        {
            let ghost held = self.source().input().buffer;
            let ghost step = chunk_of(all.skip(taken as int), major, held.len(), limit);
            proof {
                lemma_chunks_step(all, major, limit, taken, held);
            }
            match self.read_chunk(major) {
                Ok(true) => {
                    proof {
                        taken = taken + step->Ok_0.1;
                    }
                },
                Ok(false) => {
                    return Ok(());
                },
                Err(e) => {
                    return Err(e);
                },
            }
        }
    }

    /// Reads a byte string of indefinite length: its chunks, put together.
    pub fn read_indefinite_bytes<'s>(&'s mut self) -> (r: Result<EitherLifetime<'s, 'de>, Error>)
        requires
            old(self).inv(),
        ensures
            old(self).decoded_bytes(
                final(self),
                r,
                chunks_of(old(self).remaining(), 2, 0, old(self).buffer_limit()),
                R::borrows_buffer(),
            ),
    {
        match self.read_indefinite(2) {
            Ok(()) => {},
            Err(e) => {
                return Err(e);
            },
        }
        Ok(self.read.take_buffer())
    }

    /// Reads a text string of indefinite length as bytes: its chunks, put
    /// together.
    pub fn read_indefinite_str<'s>(&'s mut self) -> (r: Result<EitherLifetime<'s, 'de>, Error>)
        requires
            old(self).inv(),
        ensures
            old(self).decoded_bytes(
                final(self),
                r,
                chunks_of(old(self).remaining(), 3, 0, old(self).buffer_limit()),
                R::borrows_buffer(),
            ),
    {
        match self.read_indefinite(3) {
            Ok(()) => {},
            Err(e) => {
                return Err(e);
            },
        }
        Ok(self.read.take_buffer())
    }

    /// Reads the content of a byte string whose head has been read.
    pub fn parse_bytes<'s>(&'s mut self, len: Option<usize>) -> (r: Result<
        EitherLifetime<'s, 'de>,
        Error,
    >)
        requires
            old(self).inv(),
        ensures
            old(self).decoded_bytes(
                final(self),
                r,
                string_of(old(self).remaining(), 2, len, old(self).direct(), old(self).buffer_limit()),
                if len is Some {
                    R::borrows_reads()
                } else {
                    R::borrows_buffer()
                },
            ),
    {
        proof {
            self.source().input().lemma_skip_none();
        }
        if let Some(len) = len {
            self.read.read(len)
        } else {
            self.read_indefinite_bytes()
        }
    }

    /// Reads the content of a text string whose head has been read, and
    /// checks that it is UTF-8.
    pub fn parse_str<'s>(&'s mut self, len: Option<usize>) -> (r: Result<EitherStr<'s, 'de>, Error>)
        requires
            old(self).inv(),
        ensures
            match text_of(old(self).remaining(), len, old(self).direct(), old(self).buffer_limit()) {
                Ok((chars, n)) => old(self).moved(final(self), n) && (r matches Ok(s) && s.chars()
                    == chars && s.is_long() == if len is Some {
                    R::borrows_reads()
                } else {
                    R::borrows_buffer()
                }),
                Err(f) => old(self).faulted(final(self), r, f),
            },
    {
        proof {
            self.source().input().lemma_skip_none();
        }
        let offset = self.read.offset();
        let read = if let Some(len) = len {
            self.read.read(len)
        } else {
            self.read_indefinite_str()
        };
        match read {
            Ok(EitherLifetime::Long(buf)) => {
                match convert_str(buf, offset) {
                    Ok(s) => Ok(EitherStr::Long(s)),
                    Err(e) => Err(e),
                }
            },
            Ok(EitherLifetime::Short(buf)) => {
                match convert_str(buf, offset) {
                    Ok(s) => Ok(EitherStr::Short(s)),
                    Err(e) => Err(e),
                }
            },
            Err(e) => Err(e),
        }
    }

    /// Whether `after` is this decoder one level further in, and else the
    /// same.
    pub open spec fn entered(&self, after: &Self) -> bool {
        &&& self.same_choices(after)
        &&& self.depth() >= 2
        &&& after.depth() == self.depth() - 1
        &&& after.tag_slot() == self.tag_slot()
        &&& after.source().input() == self.source().input()
    }

    /// Whether `after` is this decoder one level further out, and else the
    /// same.
    pub open spec fn left(&self, after: &Self) -> bool {
        &&& self.same_choices(after)
        &&& after.depth() == self.depth() + 1
        &&& after.tag_slot() == self.tag_slot()
        &&& after.source().input() == self.source().input()
    }

    /// Goes one level further in, for an array, a map or a tag, unless the
    /// limit on nesting is reached. What is nested is to be followed by
    /// `recursion_done`.
    pub fn recursion_checked(&mut self) -> (r: Result<(), Error>)
        requires
            old(self).inv(),
        ensures
            if old(self).depth() >= 2 {
                r is Ok && old(self).entered(final(self))
            } else {
                *final(self) == *old(self) && old(self).failed(
                    r,
                    Fault { code: ErrorCode::RecursionLimitExceeded, at: 0, taken: 0 },
                )
            },
    {
        if self.remaining_depth <= 1 {
            return Err(self.error(ErrorCode::RecursionLimitExceeded));
        }
        self.remaining_depth -= 1;
        Ok(())
    }

    /// Comes back out of the level that `recursion_checked` went into.
    pub fn recursion_done(&mut self)
        requires
            old(self).source().inv(),
            old(self).depth() < u8::MAX,
        ensures
            old(self).left(final(self)),
    {
        self.remaining_depth += 1;
    }

    /// Goes into a tagged value: one level further in, with the tag put
    /// into the slot where tags are handed on. The value is to be followed
    /// by `tagged_value_done`.
    pub fn handle_tagged_value(&mut self, tag: u64) -> (r: Result<(), Error>)
        requires
            old(self).inv(),
        ensures
            if old(self).depth() >= 2 {
                &&& r is Ok
                &&& old(self).same_choices(final(self))
                &&& final(self).depth() == old(self).depth() - 1
                &&& final(self).source().input() == old(self).source().input()
                &&& final(self).tag_slot() == if old(self).keeps_tags() {
                    Some(tag)
                } else {
                    old(self).tag_slot()
                }
            } else {
                *final(self) == *old(self) && old(self).failed(
                    r,
                    Fault { code: ErrorCode::RecursionLimitExceeded, at: 0, taken: 0 },
                )
            },
    {
        match self.recursion_checked() {
            Ok(()) => {},
            Err(e) => {
                return Err(e);
            },
        }
        if self.tags {
            self.tag = Some(tag);
        }
        Ok(())
    }

    /// Comes back out of a tagged value and empties the slot.
    pub fn tagged_value_done(&mut self)
        requires
            old(self).source().inv(),
            old(self).depth() < u8::MAX,
        ensures
            old(self).same_choices(final(self)),
            final(self).depth() == old(self).depth() + 1,
            final(self).source().input() == old(self).source().input(),
            final(self).tag_slot() == if old(self).keeps_tags() {
                None
            } else {
                old(self).tag_slot()
            },
    {
        if self.tags {
            self.tag = None;
        }
        self.recursion_done();
    }

    /// Whether tags are handed on.
    pub fn tags_kept(&self) -> (b: bool)
        ensures
            b == self.keeps_tags(),
    {
        self.tags
    }

    /// The tag of the value that is being handed over, if it has one.
    pub fn current_tag(&self) -> (t: Option<u64>)
        ensures
            t == self.tag_slot(),
    {
        self.tag
    }

    /// Takes the head of a tag if one stands next, and gives the tag; leaves
    /// anything else in place. The tagged value is what follows.
    pub fn parse_tag(&mut self) -> (r: Result<Option<u64>, Error>)
        requires
            old(self).inv(),
        ensures
            old(self).decoded(final(self), r, tag_of(old(self).remaining())),
    {
        proof {
            self.source().input().lemma_skip_none();
        }
        match self.peek() {
            Ok(Some(byte)) => {
                if 0xc0 <= byte && byte <= 0xdb {
                    self.consume();
                    let ghost mid = *self;
                    match self.parse_argument(byte) {
                        Ok(tag) => {
                            proof {
                                let n = argument_after(byte, mid.remaining())->Ok_0.1;
                                old(self).source().input().lemma_skip_twice(1, n);
                            }
                            Ok(Some(tag))
                        },
                        Err(e) => {
                            proof {
                                let f = argument_after(byte, mid.remaining())->Err_0;
                                old(self).source().input().lemma_skip_twice(1, f.taken);
                            }
                            Err(e)
                        },
                    }
                } else {
                    Ok(None)
                }
            },
            Ok(None) => Ok(None),
            Err(e) => Err(e),
        }
    }

    /// Tells whether a value is present: takes a null, which stands for an
    /// absent value, and leaves anything else in place.
    pub fn deserialize_option(&mut self) -> (r: Result<bool, Error>)
        requires
            old(self).inv(),
        ensures
            if old(self).remaining().len() > 0 && old(self).remaining()[0] == 0xf6 {
                r == Ok::<bool, Error>(false) && old(self).advanced(final(self), 1)
            } else {
                r == Ok::<bool, Error>(true) && old(self).advanced(final(self), 0)
            },
    {
        proof {
            assert(self.remaining().skip(0) =~= self.remaining());
        }
        match self.peek() {
            Ok(Some(0xf6)) => {
                self.consume();
                Ok(false)
            },
            Ok(_) => Ok(true),
            Err(e) => Err(e),
        }
    }

    /// Goes into an enum in the legacy form whose head has been read: one
    /// level further in. The array is to be ended by `VariantAccess::end`.
    pub fn parse_enum(&mut self, len: Option<usize>) -> (r: Result<VariantAccess, Error>)
        requires
            old(self).inv(),
        ensures
            if old(self).depth() >= 2 {
                (r matches Ok(a) && a.seq.len == len) && old(self).entered(final(self))
            } else {
                *final(self) == *old(self) && old(self).failed(
                    r,
                    Fault { code: ErrorCode::RecursionLimitExceeded, at: 0, taken: 0 },
                )
            },
    {
        match self.recursion_checked() {
            Ok(()) => Ok(VariantAccess { seq: SeqAccess::new(len) }),
            Err(e) => Err(e),
        }
    }

    /// Goes into an enum in the standard form whose head has been read: one
    /// level further in. The map is to be ended by `VariantAccessMap::end`.
    pub fn parse_enum_map(&mut self) -> (r: Result<VariantAccessMap, Error>)
        requires
            old(self).inv(),
        ensures
            if old(self).depth() >= 2 {
                (r matches Ok(a) && a.map.len == Some(1usize) && !a.map.keyed_by_fields) && old(self).entered(final(self))
            } else {
                *final(self) == *old(self) && old(self).failed(
                    r,
                    Fault { code: ErrorCode::RecursionLimitExceeded, at: 0, taken: 0 },
                )
            },
    {
        match self.recursion_checked() {
            Ok(()) => Ok(VariantAccessMap::new()),
            Err(e) => Err(e),
        }
    }

    /// Finds the form of the enum that comes next and takes its opening.
    /// For a form with content the decoder goes one level further in.
    pub fn deserialize_enum(&mut self) -> (r: Result<EnumAccess, Error>)
        requires
            old(self).inv(),
        ensures
            match enum_shape_of(
                old(self).remaining(),
                old(self).choices().spec_accept_standard_enums(),
                old(self).choices().spec_accept_legacy_enums(),
            ) {
                Ok((EnumShape::Unit, n)) => r matches Ok(EnumAccess::Unit) && old(self).advanced(
                    final(self),
                    n,
                ),
                Ok((shape, n)) => if old(self).depth() >= 2 {
                    &&& r matches Ok(a) && a.shape() == shape
                    &&& old(self).same_choices(final(self))
                    &&& final(self).depth() == old(self).depth() - 1
                    &&& final(self).tag_slot() == old(self).tag_slot()
                    &&& n <= old(self).remaining().len()
                    &&& final(self).source().input() == old(self).source().input().skip(n)
                } else {
                    old(self).stopped(
                        final(self),
                        r,
                        Fault { code: ErrorCode::RecursionLimitExceeded, at: n, taken: n },
                    )
                },
                Err(f) => old(self).stopped(final(self), r, f),
            },
    {
        proof {
            assert(self.remaining().skip(0) =~= self.remaining());
        }
        let byte = match self.peek() {
            Ok(Some(byte)) => byte,
            Ok(None) => {
                return Err(self.error(ErrorCode::EofWhileParsingValue));
            },
            Err(e) => {
                return Err(e);
            },
        };
        if 0x80 <= byte && byte <= 0x9b || byte == 0x9f {
            if !self.options.accept_legacy_enums() {
                return Err(self.error(ErrorCode::WrongEnumFormat));
            }
            self.consume();
            let ghost mid = *self;
            let len = match self.parse_length(byte) {
                Ok(len) => len,
                Err(e) => {
                    proof {
                        let f = length_after(byte, mid.remaining())->Err_0;
                        old(self).source().input().lemma_skip_twice(1, f.taken);
                    }
                    return Err(e);
                },
            };
            proof {
                let n = (self.position() - mid.position()) as nat;
                assert(old(self).remaining().skip(1).skip(n as int) =~= old(self).remaining().skip(
                    (n + 1) as int,
                ));
            }
            match self.parse_enum(len) {
                Ok(access) => Ok(EnumAccess::Legacy(access)),
                Err(e) => Err(e),
            }
        } else if byte == 0xa1 {
            if !self.options.accept_standard_enums() {
                return Err(self.error(ErrorCode::WrongEnumFormat));
            }
            self.consume();
            match self.parse_enum_map() {
                Ok(access) => Ok(EnumAccess::Standard(access)),
                Err(e) => Err(e),
            }
        } else {
            if !self.options.accept_standard_enums() && !self.options.accept_legacy_enums() {
                return Err(self.error(ErrorCode::WrongEnumFormat));
            }
            Ok(EnumAccess::Unit)
        }
    }

    /// Reads the head of a data item of any kind.
    pub fn deserialize_any(&mut self) -> (r: Result<Token, Error>)
        requires
            old(self).inv(),
        ensures
            old(self).decoded(
                final(self),
                r,
                token_of(old(self).remaining(), ExpectedSet::spec_all()),
            ),
    {
        self.parse_value(ExpectedSet::all())
    }

    /// Reads the head of a data item that is to be a boolean.
    pub fn deserialize_bool(&mut self) -> (r: Result<Token, Error>)
        requires
            old(self).inv(),
        ensures
            old(self).decoded(
                final(self),
                r,
                token_of(old(self).remaining(), (ExpectedSet { boolean: true, ..ExpectedSet::spec_none() })),
            ),
    {
        self.parse_value(ExpectedSet::for_bool())
    }

    /// Reads the head of a data item that is to be an integer of 8 bits.
    pub fn deserialize_i8(&mut self) -> (r: Result<Token, Error>)
        requires
            old(self).inv(),
        ensures
            old(self).decoded(
                final(self),
                r,
                token_of(old(self).remaining(), (ExpectedSet { int_pos: true, int_neg: true, ..ExpectedSet::spec_none() })),
            ),
    {
        self.parse_value(ExpectedSet::for_sint())
    }

    /// Reads the head of a data item that is to be an integer of 16 bits.
    pub fn deserialize_i16(&mut self) -> (r: Result<Token, Error>)
        requires
            old(self).inv(),
        ensures
            old(self).decoded(
                final(self),
                r,
                token_of(old(self).remaining(), (ExpectedSet { int_pos: true, int_neg: true, ..ExpectedSet::spec_none() })),
            ),
    {
        self.parse_value(ExpectedSet::for_sint())
    }

    /// Reads the head of a data item that is to be an integer of 32 bits.
    pub fn deserialize_i32(&mut self) -> (r: Result<Token, Error>)
        requires
            old(self).inv(),
        ensures
            old(self).decoded(
                final(self),
                r,
                token_of(old(self).remaining(), (ExpectedSet { int_pos: true, int_neg: true, ..ExpectedSet::spec_none() })),
            ),
    {
        self.parse_value(ExpectedSet::for_sint())
    }

    /// Reads the head of a data item that is to be an integer of 64 bits.
    pub fn deserialize_i64(&mut self) -> (r: Result<Token, Error>)
        requires
            old(self).inv(),
        ensures
            old(self).decoded(
                final(self),
                r,
                token_of(old(self).remaining(), (ExpectedSet { int_pos: true, int_neg: true, ..ExpectedSet::spec_none() })),
            ),
    {
        self.parse_value(ExpectedSet::for_sint())
    }

    /// Reads the head of a data item that is to be an integer of 128 bits.
    pub fn deserialize_i128(&mut self) -> (r: Result<Token, Error>)
        requires
            old(self).inv(),
        ensures
            old(self).decoded(
                final(self),
                r,
                token_of(old(self).remaining(), (ExpectedSet { int_pos: true, int_neg: true, ..ExpectedSet::spec_none() })),
            ),
    {
        self.parse_value(ExpectedSet::for_sint())
    }

    /// Reads the head of a data item that is to be an unsigned integer of 8 bits.
    pub fn deserialize_u8(&mut self) -> (r: Result<Token, Error>)
        requires
            old(self).inv(),
        ensures
            old(self).decoded(
                final(self),
                r,
                token_of(old(self).remaining(), (ExpectedSet { int_pos: true, ..ExpectedSet::spec_none() })),
            ),
    {
        self.parse_value(ExpectedSet::for_uint())
    }

    /// Reads the head of a data item that is to be an unsigned integer of 16 bits.
    pub fn deserialize_u16(&mut self) -> (r: Result<Token, Error>)
        requires
            old(self).inv(),
        ensures
            old(self).decoded(
                final(self),
                r,
                token_of(old(self).remaining(), (ExpectedSet { int_pos: true, ..ExpectedSet::spec_none() })),
            ),
    {
        self.parse_value(ExpectedSet::for_uint())
    }

    /// Reads the head of a data item that is to be an unsigned integer of 32 bits.
    pub fn deserialize_u32(&mut self) -> (r: Result<Token, Error>)
        requires
            old(self).inv(),
        ensures
            old(self).decoded(
                final(self),
                r,
                token_of(old(self).remaining(), (ExpectedSet { int_pos: true, ..ExpectedSet::spec_none() })),
            ),
    {
        self.parse_value(ExpectedSet::for_uint())
    }

    /// Reads the head of a data item that is to be an unsigned integer of 64 bits.
    pub fn deserialize_u64(&mut self) -> (r: Result<Token, Error>)
        requires
            old(self).inv(),
        ensures
            old(self).decoded(
                final(self),
                r,
                token_of(old(self).remaining(), (ExpectedSet { int_pos: true, ..ExpectedSet::spec_none() })),
            ),
    {
        self.parse_value(ExpectedSet::for_uint())
    }

    /// Reads the head of a data item that is to be an unsigned integer of 128 bits.
    pub fn deserialize_u128(&mut self) -> (r: Result<Token, Error>)
        requires
            old(self).inv(),
        ensures
            old(self).decoded(
                final(self),
                r,
                token_of(old(self).remaining(), (ExpectedSet { int_pos: true, ..ExpectedSet::spec_none() })),
            ),
    {
        self.parse_value(ExpectedSet::for_uint())
    }

    /// Reads the head of a data item that is to be a float of single precision.
    pub fn deserialize_f32(&mut self) -> (r: Result<Token, Error>)
        requires
            old(self).inv(),
        ensures
            old(self).decoded(
                final(self),
                r,
                token_of(old(self).remaining(), (ExpectedSet { int_pos: true, int_neg: true, float: true, ..ExpectedSet::spec_none() })),
            ),
    {
        self.parse_value(ExpectedSet::for_float())
    }

    /// Reads the head of a data item that is to be a float of double precision.
    pub fn deserialize_f64(&mut self) -> (r: Result<Token, Error>)
        requires
            old(self).inv(),
        ensures
            old(self).decoded(
                final(self),
                r,
                token_of(old(self).remaining(), (ExpectedSet { int_pos: true, int_neg: true, float: true, ..ExpectedSet::spec_none() })),
            ),
    {
        self.parse_value(ExpectedSet::for_float())
    }

    /// Reads the head of a data item that is to be a character.
    pub fn deserialize_char(&mut self) -> (r: Result<Token, Error>)
        requires
            old(self).inv(),
        ensures
            old(self).decoded(
                final(self),
                r,
                token_of(old(self).remaining(), (ExpectedSet { string: true, bytes: true, ..ExpectedSet::spec_none() })),
            ),
    {
        self.parse_value(ExpectedSet::for_string())
    }

    /// Reads the head of a data item that is to be a string.
    pub fn deserialize_str(&mut self) -> (r: Result<Token, Error>)
        requires
            old(self).inv(),
        ensures
            old(self).decoded(
                final(self),
                r,
                token_of(old(self).remaining(), (ExpectedSet { string: true, bytes: true, ..ExpectedSet::spec_none() })),
            ),
    {
        self.parse_value(ExpectedSet::for_string())
    }

    /// Reads the head of a data item that is to be a string.
    pub fn deserialize_string(&mut self) -> (r: Result<Token, Error>)
        requires
            old(self).inv(),
        ensures
            old(self).decoded(
                final(self),
                r,
                token_of(old(self).remaining(), (ExpectedSet { string: true, bytes: true, ..ExpectedSet::spec_none() })),
            ),
    {
        self.parse_value(ExpectedSet::for_string())
    }

    /// Reads the head of a data item that is to be a sequence of bytes.
    pub fn deserialize_bytes(&mut self) -> (r: Result<Token, Error>)
        requires
            old(self).inv(),
        ensures
            old(self).decoded(
                final(self),
                r,
                token_of(old(self).remaining(), (ExpectedSet { array: true, string: true, bytes: true, ..ExpectedSet::spec_none() })),
            ),
    {
        self.parse_value(ExpectedSet::for_bytes())
    }

    /// Reads the head of a data item that is to be a sequence of bytes.
    pub fn deserialize_byte_buf(&mut self) -> (r: Result<Token, Error>)
        requires
            old(self).inv(),
        ensures
            old(self).decoded(
                final(self),
                r,
                token_of(old(self).remaining(), (ExpectedSet { array: true, string: true, bytes: true, ..ExpectedSet::spec_none() })),
            ),
    {
        self.parse_value(ExpectedSet::for_bytes())
    }

    /// Reads the head of a data item that is to be the unit value.
    pub fn deserialize_unit(&mut self) -> (r: Result<Token, Error>)
        requires
            old(self).inv(),
        ensures
            old(self).decoded(
                final(self),
                r,
                token_of(old(self).remaining(), (ExpectedSet { null: true, ..ExpectedSet::spec_none() })),
            ),
    {
        self.parse_value(ExpectedSet::for_unit())
    }

    /// Reads the head of a data item that is to be a struct without fields,
    /// whatever its name.
    pub fn deserialize_unit_struct(&mut self, _name: &str) -> (r: Result<Token, Error>)
        requires
            old(self).inv(),
        ensures
            old(self).decoded(
                final(self),
                r,
                token_of(old(self).remaining(), (ExpectedSet { null: true, ..ExpectedSet::spec_none() })),
            ),
    {
        self.parse_value(ExpectedSet::for_unit())
    }

    /// Reads the head of a data item that is to be a sequence.
    pub fn deserialize_seq(&mut self) -> (r: Result<Token, Error>)
        requires
            old(self).inv(),
        ensures
            old(self).decoded(
                final(self),
                r,
                token_of(old(self).remaining(), (ExpectedSet { array: true, ..ExpectedSet::spec_none() })),
            ),
    {
        self.parse_value(ExpectedSet::for_seq())
    }

    /// Reads the head of a data item that is to be a tuple, whatever its
    /// length.
    pub fn deserialize_tuple(&mut self, _len: usize) -> (r: Result<Token, Error>)
        requires
            old(self).inv(),
        ensures
            old(self).decoded(
                final(self),
                r,
                token_of(old(self).remaining(), (ExpectedSet { array: true, ..ExpectedSet::spec_none() })),
            ),
    {
        self.parse_value(ExpectedSet::for_seq())
    }

    /// Reads the head of a data item that is to be a tuple struct, whatever
    /// its name and length.
    pub fn deserialize_tuple_struct(&mut self, _name: &str, _len: usize) -> (r: Result<Token, Error>)
        requires
            old(self).inv(),
        ensures
            old(self).decoded(
                final(self),
                r,
                token_of(old(self).remaining(), (ExpectedSet { array: true, ..ExpectedSet::spec_none() })),
            ),
    {
        self.parse_value(ExpectedSet::for_seq())
    }

    /// Reads the head of a data item that is to be a map.
    pub fn deserialize_map(&mut self) -> (r: Result<Token, Error>)
        requires
            old(self).inv(),
        ensures
            old(self).decoded(
                final(self),
                r,
                token_of(old(self).remaining(), (ExpectedSet { map: true, ..ExpectedSet::spec_none() })),
            ),
    {
        self.parse_value(ExpectedSet::for_map())
    }

    /// Reads the head of a data item that is to be a struct, whatever its
    /// name. The keys of the map that follows are to be held to the forms
    /// that the decoder accepts: `MapAccess::new(len, true)`.
    pub fn deserialize_struct(&mut self, _name: &str) -> (r: Result<Token, Error>)
        requires
            old(self).inv(),
        ensures
            old(self).decoded(
                final(self),
                r,
                token_of(old(self).remaining(), (ExpectedSet { map: true, ..ExpectedSet::spec_none() })),
            ),
    {
        self.parse_value(ExpectedSet::for_map())
    }

    /// Reads the head of a data item that is to name a field or a variant.
    pub fn deserialize_identifier(&mut self) -> (r: Result<Token, Error>)
        requires
            old(self).inv(),
        ensures
            old(self).decoded(
                final(self),
                r,
                token_of(old(self).remaining(), (ExpectedSet { string: true, int_pos: true, ..ExpectedSet::spec_none() })),
            ),
    {
        self.parse_value(ExpectedSet::for_string_and_uint())
    }

    /// Reads the head of a data item that is to be passed over.
    pub fn deserialize_ignored_any(&mut self) -> (r: Result<Token, Error>)
        requires
            old(self).inv(),
        ensures
            old(self).decoded(
                final(self),
                r,
                token_of(old(self).remaining(), ExpectedSet::spec_all()),
            ),
    {
        self.parse_value(ExpectedSet::all())
    }

    /// CBOR is not for human readers.
    pub fn is_human_readable(&self) -> (b: bool)
        ensures
            !b,
    {
        false
    }
}

impl<'de, R: Offset<'de>, O: DeserializerOptions> Deserializer<R, O> {
    /// How many bytes have been taken.
    pub fn byte_offset(&self) -> (o: usize)
        requires
            self.inv(),
        ensures
            o == self.position(),
    {
        self.read.byte_offset()
    }
}

/// The elements of an array that is being read.
#[derive(Debug)]
pub struct SeqAccess {
    /// How many elements are still to come, where the array has a length.
    pub len: Option<usize>,
}

impl SeqAccess {
    /// The elements of an array whose head has been read.
    pub fn new(len: Option<usize>) -> (a: SeqAccess)
        ensures
            a.len == len,
    {
        SeqAccess { len }
    }

    /// Tells whether another element is due, and counts it. The element
    /// itself is for the caller to read.
    pub fn next_element_seed<'de, R: Read<'de>, O: DeserializerOptions>(
        &mut self,
        de: &mut Deserializer<R, O>,
    ) -> (r: Result<bool, Error>)
        requires
            old(de).inv(),
        ensures
            old(de).advanced(final(de), 0),
            match access_step(old(de).remaining(), old(self).len, ErrorCode::EofWhileParsingArray) {
                Ok((more, len)) => r == Ok::<bool, Error>(more) && final(self).len == len,
                Err(f) => old(de).failed(r, f) && final(self).len == old(self).len,
            },
    {
        proof {
            assert(de.remaining().skip(0) =~= de.remaining());
        }
        match self.len {
            Some(len) => {
                if len == 0 {
                    return Ok(false);
                }
                match de.peek() {
                    Ok(Some(_)) => {},
                    Ok(None) => {
                        return Err(de.error(ErrorCode::EofWhileParsingArray));
                    },
                    Err(e) => {
                        return Err(e);
                    },
                }
                self.len = Some(len - 1);
            },
            None => {
                match de.peek() {
                    Ok(Some(0xff)) => {
                        return Ok(false);
                    },
                    Ok(Some(_)) => {},
                    Ok(None) => {
                        return Err(de.error(ErrorCode::EofWhileParsingArray));
                    },
                    Err(e) => {
                        return Err(e);
                    },
                }
            },
        }
        Ok(true)
    }

    /// How many elements are still to come, if that is known.
    pub fn size_hint(&self) -> (n: Option<usize>)
        ensures
            n == self.len,
    {
        self.len
    }

    /// Ends the array once its consumer is done: what the consumer left of
    /// it is trailing data; where the array has no length the break byte
    /// is taken.
    pub fn end<'de, R: Read<'de>, O: DeserializerOptions>(self, de: &mut Deserializer<R, O>) -> (r:
        Result<(), Error>)
        requires
            old(de).inv(),
        ensures
            old(de).decoded(
                final(de),
                r,
                access_end(old(de).remaining(), self.len, ErrorCode::EofWhileParsingArray),
            ),
    {
        proof {
            assert(de.remaining().skip(0) =~= de.remaining());
        }
        match self.len {
            Some(0) => Ok(()),
            Some(_) => Err(de.error(ErrorCode::TrailingData)),
            None => match de.next() {
                Ok(Some(0xff)) => Ok(()),
                Ok(Some(_)) => Err(de.error(ErrorCode::TrailingData)),
                Ok(None) => Err(de.error(ErrorCode::EofWhileParsingArray)),
                Err(e) => Err(e),
            },
        }
    }
}

/// The entries of a map that is being read.
#[derive(Debug)]
pub struct MapAccess {
    /// How many entries are still to come, where the map has a length.
    pub len: Option<usize>,
    /// Whether the map stands for a struct, so that its keys are held to
    /// the forms that the decoder accepts.
    pub keyed_by_fields: bool,
}

impl MapAccess {
    /// The entries of a map whose head has been read.
    pub fn new(len: Option<usize>, keyed_by_fields: bool) -> (a: MapAccess)
        ensures
            a.len == len,
            a.keyed_by_fields == keyed_by_fields,
    {
        MapAccess { len, keyed_by_fields }
    }

    /// Tells whether another entry is due, and counts it. Where the map
    /// stands for a struct, a key of a form that the decoder refuses is an
    /// error. The key itself is for the caller to read.
    pub fn next_key_seed<'de, R: Read<'de>, O: DeserializerOptions>(
        &mut self,
        de: &mut Deserializer<R, O>,
    ) -> (r: Result<bool, Error>)
        requires
            old(de).inv(),
        ensures
            old(de).advanced(final(de), 0),
            final(self).keyed_by_fields == old(self).keyed_by_fields,
            match access_step(old(de).remaining(), old(self).len, ErrorCode::EofWhileParsingMap) {
                Ok((more, len)) => final(self).len == len && if more && old(self).keyed_by_fields
                    && key_refused(
                    old(de).remaining(),
                    old(de).choices().spec_accept_named(),
                    old(de).choices().spec_accept_packed(),
                ) {
                    old(de).failed(r, Fault { code: ErrorCode::WrongStructFormat, at: 0, taken: 0 })
                } else {
                    r == Ok::<bool, Error>(more)
                },
                Err(f) => old(de).failed(r, f) && final(self).len == old(self).len,
            },
    {
        proof {
            assert(de.remaining().skip(0) =~= de.remaining());
        }
        match self.len {
            Some(len) => {
                if len == 0 {
                    return Ok(false);
                }
                match de.peek() {
                    Ok(Some(_)) => {},
                    Ok(None) => {
                        return Err(de.error(ErrorCode::EofWhileParsingMap));
                    },
                    Err(e) => {
                        return Err(e);
                    },
                }
                self.len = Some(len - 1);
            },
            None => {
                match de.peek() {
                    Ok(Some(0xff)) => {
                        return Ok(false);
                    },
                    Ok(Some(_)) => {},
                    Ok(None) => {
                        return Err(de.error(ErrorCode::EofWhileParsingMap));
                    },
                    Err(e) => {
                        return Err(e);
                    },
                }
            },
        }
        if self.keyed_by_fields && (!de.options.accept_named() || !de.options.accept_packed()) {
            match de.peek() {
                Ok(Some(byte)) => {
                    if byte <= 0x1b && !de.options.accept_packed() {
                        return Err(de.error(ErrorCode::WrongStructFormat));
                    }
                    if 0x60 <= byte && byte <= 0x7f && !de.options.accept_named() {
                        return Err(de.error(ErrorCode::WrongStructFormat));
                    }
                },
                Ok(None) => {},
                Err(e) => {
                    return Err(e);
                },
            }
        }
        Ok(true)
    }

    /// Makes sure that the value of the entry whose key was read can come
    /// next: a map that ends behind a key is cut short. The value itself
    /// is for the caller to read.
    pub fn next_value_seed<'de, R: Read<'de>, O: DeserializerOptions>(
        &self,
        de: &mut Deserializer<R, O>,
    ) -> (r: Result<(), Error>)
        requires
            old(de).inv(),
        ensures
            old(de).decoded(final(de), r, value_due(old(de).remaining())),
    {
        proof {
            de.source().input().lemma_skip_none();
        }
        match de.peek() {
            Ok(Some(_)) => Ok(()),
            Ok(None) => Err(de.error(ErrorCode::EofWhileParsingMap)),
            Err(e) => Err(e),
        }
    }

    /// How many entries are still to come, if that is known.
    pub fn size_hint(&self) -> (n: Option<usize>)
        ensures
            n == self.len,
    {
        self.len
    }

    /// Ends the map once its consumer is done: what the consumer left of it
    /// is trailing data; where the map has no length the break byte is
    /// taken.
    pub fn end<'de, R: Read<'de>, O: DeserializerOptions>(self, de: &mut Deserializer<R, O>) -> (r:
        Result<(), Error>)
        requires
            old(de).inv(),
        ensures
            old(de).decoded(
                final(de),
                r,
                access_end(old(de).remaining(), self.len, ErrorCode::EofWhileParsingMap),
            ),
    {
        proof {
            assert(de.remaining().skip(0) =~= de.remaining());
        }
        match self.len {
            Some(0) => Ok(()),
            Some(_) => Err(de.error(ErrorCode::TrailingData)),
            None => match de.next() {
                Ok(Some(0xff)) => Ok(()),
                Ok(Some(_)) => Err(de.error(ErrorCode::TrailingData)),
                Ok(None) => Err(de.error(ErrorCode::EofWhileParsingMap)),
                Err(e) => Err(e),
            },
        }
    }
}

/// What a step of an enum in the legacy form owes next: an element, or the
/// fault `missing` where the array is used up.
pub open spec fn element_due(bytes: Seq<u8>, len: Option<usize>, missing: ErrorCode) -> Result<
    Option<usize>,
    Fault,
> {
    match access_step(bytes, len, ErrorCode::EofWhileParsingArray) {
        Ok((more, len)) => if more {
            Ok(len)
        } else {
            Err(Fault { code: missing, at: 0, taken: 0 })
        },
        Err(f) => Err(f),
    }
}

/// An enum in the legacy form that is being read: an array that starts
/// with the variant and goes on with its content.
#[derive(Debug)]
pub struct VariantAccess {
    /// The array.
    pub seq: SeqAccess,
}

impl VariantAccess {
    /// Takes the next element of the array for granted: where the array is
    /// used up, the error is `missing`.
    fn element<'de, R: Read<'de>, O: DeserializerOptions>(
        &mut self,
        de: &mut Deserializer<R, O>,
        missing: ErrorCode,
    ) -> (r: Result<(), Error>)
        requires
            old(de).inv(),
        ensures
            old(de).advanced(final(de), 0),
            match element_due(old(de).remaining(), old(self).seq.len, missing) {
                Ok(len) => r is Ok && final(self).seq.len == len,
                Err(f) => old(de).failed(r, f),
            },
    {
        match self.seq.next_element_seed(de) {
            Ok(true) => Ok(()),
            Ok(false) => Err(de.error(missing)),
            Err(e) => Err(e),
        }
    }

    /// Makes sure that the variant comes next: an array without it is too
    /// short.
    pub fn variant_seed<'de, R: Read<'de>, O: DeserializerOptions>(
        &mut self,
        de: &mut Deserializer<R, O>,
    ) -> (r: Result<(), Error>)
        requires
            old(de).inv(),
        ensures
            old(de).advanced(final(de), 0),
            match element_due(old(de).remaining(), old(self).seq.len, ErrorCode::ArrayTooShort) {
                Ok(len) => r is Ok && final(self).seq.len == len,
                Err(f) => old(de).failed(r, f),
            },
    {
        self.element(de, ErrorCode::ArrayTooShort)
    }

    /// Makes sure that the unit which stands for the content of a variant
    /// without content comes next.
    pub fn unit_variant<'de, R: Read<'de>, O: DeserializerOptions>(
        &mut self,
        de: &mut Deserializer<R, O>,
    ) -> (r: Result<(), Error>)
        requires
            old(de).inv(),
        ensures
            old(de).advanced(final(de), 0),
            match element_due(old(de).remaining(), old(self).seq.len, ErrorCode::ArrayTooLong) {
                Ok(len) => r is Ok && final(self).seq.len == len,
                Err(f) => old(de).failed(r, f),
            },
    {
        self.element(de, ErrorCode::ArrayTooLong)
    }

    /// Makes sure that the one value of a newtype variant comes next.
    pub fn newtype_variant_seed<'de, R: Read<'de>, O: DeserializerOptions>(
        &mut self,
        de: &mut Deserializer<R, O>,
    ) -> (r: Result<(), Error>)
        requires
            old(de).inv(),
        ensures
            old(de).advanced(final(de), 0),
            match element_due(old(de).remaining(), old(self).seq.len, ErrorCode::ArrayTooShort) {
                Ok(len) => r is Ok && final(self).seq.len == len,
                Err(f) => old(de).failed(r, f),
            },
    {
        self.element(de, ErrorCode::ArrayTooShort)
    }

    /// Ends the enum once its consumer is done, and comes back out of it:
    /// what the consumer left of the array is trailing data; where the
    /// array has no length the break byte is taken.
    pub fn end<'de, R: Read<'de>, O: DeserializerOptions>(self, de: &mut Deserializer<R, O>) -> (r:
        Result<(), Error>)
        requires
            old(de).inv(),
            old(de).depth() < u8::MAX,
        ensures
            old(de).same_choices(final(de)),
            final(de).depth() == old(de).depth() + 1,
            final(de).tag_slot() == old(de).tag_slot(),
            match access_end(old(de).remaining(), self.seq.len, ErrorCode::EofWhileParsingArray) {
                Ok((_, n)) => r is Ok && n <= old(de).remaining().len() && final(de).source().input()
                    == old(de).source().input().skip(n),
                Err(f) => old(de).failed(r, f) && f.taken <= old(de).remaining().len() && final(de).source().input() == old(de).source().input().skip(f.taken),
            },
    {
        let r = self.seq.end(de);
        de.recursion_done();
        r
    }

    /// Makes sure that the struct of a struct variant comes next.
    pub fn struct_variant<'de, R: Read<'de>, O: DeserializerOptions>(
        &mut self,
        de: &mut Deserializer<R, O>,
    ) -> (r: Result<(), Error>)
        requires
            old(de).inv(),
        ensures
            old(de).advanced(final(de), 0),
            match element_due(old(de).remaining(), old(self).seq.len, ErrorCode::ArrayTooShort) {
                Ok(len) => r is Ok && final(self).seq.len == len,
                Err(f) => old(de).failed(r, f),
            },
    {
        self.element(de, ErrorCode::ArrayTooShort)
    }
}

/// An enum in the standard form that is being read: a map of one entry.
#[derive(Debug)]
pub struct VariantAccessMap {
    /// The map.
    pub map: MapAccess,
}

impl VariantAccessMap {
    /// An enum in the standard form whose head has been read.
    pub fn new() -> (a: VariantAccessMap)
        ensures
            a.map.len == Some(1usize),
            !a.map.keyed_by_fields,
    {
        VariantAccessMap { map: MapAccess::new(Some(1), false) }
    }

    /// Makes sure that the variant comes next: a map without it is too
    /// short.
    pub fn variant_seed<'de, R: Read<'de>, O: DeserializerOptions>(
        &mut self,
        de: &mut Deserializer<R, O>,
    ) -> (r: Result<(), Error>)
        requires
            old(de).inv(),
            !old(self).map.keyed_by_fields,
        ensures
            old(de).advanced(final(de), 0),
            !final(self).map.keyed_by_fields,
            match access_step(old(de).remaining(), old(self).map.len, ErrorCode::EofWhileParsingMap) {
                Ok((more, len)) => final(self).map.len == len && if more {
                    r is Ok
                } else {
                    old(de).failed(r, Fault { code: ErrorCode::ArrayTooShort, at: 0, taken: 0 })
                },
                Err(f) => old(de).failed(r, f) && final(self).map.len == old(self).map.len,
            },
    {
        match self.map.next_key_seed(de) {
            Ok(true) => Ok(()),
            Ok(false) => Err(de.error(ErrorCode::ArrayTooShort)),
            Err(e) => Err(e),
        }
    }

    /// Ends the enum once its consumer is done, and comes back out of it:
    /// an entry that the consumer left is trailing data.
    pub fn end<'de, R: Read<'de>, O: DeserializerOptions>(self, de: &mut Deserializer<R, O>) -> (r:
        Result<(), Error>)
        requires
            old(de).inv(),
            old(de).depth() < u8::MAX,
            self.map.len is Some,
        ensures
            old(de).left(final(de)),
            if self.map.len == Some(0usize) {
                r is Ok
            } else {
                old(de).failed(r, Fault { code: ErrorCode::TrailingData, at: 0, taken: 0 })
            },
    {
        let r = match self.map.len {
            Some(0) => Ok(()),
            _ => Err(de.error(ErrorCode::TrailingData)),
        };
        de.recursion_done();
        r
    }
}

/// An enum that is being read, in the form in which it came.
#[derive(Debug)]
pub enum EnumAccess {
    /// The variant alone.
    Unit,
    /// An array that starts with the variant.
    Legacy(VariantAccess),
    /// A map of one entry, from the variant to its content.
    Standard(VariantAccessMap),
}

impl EnumAccess {
    /// The form of the enum, as its head gave it.
    pub open spec fn shape(&self) -> EnumShape {
        match self {
            EnumAccess::Unit => EnumShape::Unit,
            EnumAccess::Legacy(a) => EnumShape::Legacy(a.seq.len),
            EnumAccess::Standard(_) => EnumShape::Standard,
        }
    }
}

} // verus!
