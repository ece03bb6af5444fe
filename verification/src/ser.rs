//! The encoder: writes data items, each with the shortest head that holds
//! its argument.

use vstd::prelude::*;
use vstd::slice::slice_subrange;
use vstd::string::StringSliceAdditionalSpecFns;
use vstd::utf8::encode_utf8;
use crate::error::{Error, ErrorCode};
use crate::wire::{be_bytes, head_bytes, indefinite_head, initial_byte, lemma_be_bytes_len};
use crate::write::{failure, lemma_written_after_append, write_outcome};
pub use crate::write::{SliceWrite, Write};

verus! {

/// The choices an encoder offers.
pub trait SerializerOptions: Sized {
    /// Whether field and variant names are replaced by their indices.
    spec fn spec_packed(&self) -> bool;

    /// Whether an enum variant with content is written as a map of one
    /// entry; otherwise it is written as an array that starts with the
    /// variant.
    spec fn spec_enum_as_map(&self) -> bool;

    /// Whether field and variant names are replaced by their indices.
    fn packed(&self) -> (b: bool)
        ensures
            b == self.spec_packed(),
    ;

    /// Whether an enum variant with content is written as a map of one
    /// entry.
    fn enum_as_map(&self) -> (b: bool)
        ensures
            b == self.spec_enum_as_map(),
    ;

    /// The same choices as a value that can be changed.
    fn to_custom(&self) -> (c: CustomSerializerOptions)
        ensures
            c.is_packed() == self.spec_packed(),
            c.is_enum_as_map() == self.spec_enum_as_map(),
    {
        CustomSerializerOptions { emum_as_map: self.enum_as_map(), packed: self.packed() }
    }
}

/// The choices of an encoder that was told nothing: names are written out,
/// enums are maps.
pub struct DefaultSerializerOptions;

impl SerializerOptions for DefaultSerializerOptions {
    open spec fn spec_packed(&self) -> bool {
        false
    }

    open spec fn spec_enum_as_map(&self) -> bool {
        true
    }

    fn packed(&self) -> (b: bool) {
        false
    }

    fn enum_as_map(&self) -> (b: bool) {
        true
    }
}

/// Choices made one by one.
pub struct CustomSerializerOptions {
    packed: bool,
    emum_as_map: bool,
}

impl CustomSerializerOptions {
    /// Whether names are replaced by indices.
    pub closed spec fn is_packed(&self) -> bool {
        self.packed
    }

    /// Whether enum variants with content are written as maps.
    pub closed spec fn is_enum_as_map(&self) -> bool {
        self.emum_as_map
    }

    /// The choices of an encoder that was told nothing.
    pub fn new() -> (c: Self)
        ensures
            !c.is_packed(),
            c.is_enum_as_map(),
    {
        DefaultSerializerOptions.to_custom()
    }

    /// The same choices, but for `packed`.
    pub fn set_packed(self, new: bool) -> (c: Self)
        ensures
            c.is_packed() == new,
            c.is_enum_as_map() == self.is_enum_as_map(),
    {
        let mut c = self;
        c.packed = new;
        c
    }

    /// The same choices, but for `enum_as_map`.
    pub fn set_emum_as_map(self, new: bool) -> (c: Self)
        ensures
            c.is_packed() == self.is_packed(),
            c.is_enum_as_map() == new,
    {
        let mut c = self;
        c.emum_as_map = new;
        c
    }
}

impl SerializerOptions for CustomSerializerOptions {
    open spec fn spec_packed(&self) -> bool {
        self.is_packed()
    }

    open spec fn spec_enum_as_map(&self) -> bool {
        self.is_enum_as_map()
    }

    fn packed(&self) -> (b: bool) {
        self.packed
    }

    fn enum_as_map(&self) -> (b: bool) {
        self.emum_as_map
    }
}

/// The head of an integer: major type 0 for what is not negative, major
/// type 1 with the argument `-1 - value` for what is.
pub open spec fn integer_head(value: int) -> Seq<u8>
    recommends
        -0x1_0000_0000_0000_0000 <= value < 0x1_0000_0000_0000_0000,
{
    if value < 0 {
        head_bytes(1, (-1 - value) as u64)
    } else {
        head_bytes(0, value as u64)
    }
}

/// Whether an integer has an encoding: its magnitude must fit 64 bits.
pub open spec fn integer_in_range(value: int) -> bool {
    -0x1_0000_0000_0000_0000 <= value < 0x1_0000_0000_0000_0000
}

/// The name of a newtype that carries a tag: a NUL character and then
/// `cbor_tag`, as UTF-8.
pub open spec fn tag_name_bytes() -> Seq<u8> {
    seq![0x00u8, 0x63u8, 0x62u8, 0x6fu8, 0x72u8, 0x5fu8, 0x74u8, 0x61u8, 0x67u8]
}

/// What is written for a unit variant: its index where names are packed,
/// else its name as a text string.
pub open spec fn variant_chunks(packed: bool, variant_index: u32, variant: Seq<u8>) -> Seq<Seq<u8>> {
    if packed {
        seq![head_bytes(0, variant_index as u64)]
    } else {
        seq![head_bytes(3, variant.len() as u64), variant]
    }
}

/// An encoder that writes into `W`.
pub struct Serializer<W, O = DefaultSerializerOptions> {
    writer: W,
    options: O,
}

impl<W: Write> Serializer<W, DefaultSerializerOptions> {
    /// An encoder with the default choices.
    pub fn new(writer: W) -> (s: Self)
        ensures
            s.sink() == writer,
            s.choices() == DefaultSerializerOptions,
    {
        Serializer::new_with_options(writer, DefaultSerializerOptions)
    }
}

impl<W: Write, O: SerializerOptions> Serializer<W, O> {
    /// The sink the encoder writes into.
    pub closed spec fn sink(&self) -> W {
        self.writer
    }

    /// The choices the encoder was made with.
    pub closed spec fn choices(&self) -> O {
        self.options
    }

    /// What makes the encoder well-formed: its sink is.
    pub open spec fn inv(&self) -> bool {
        self.sink().inv()
    }

    /// The bytes written so far.
    pub open spec fn written(&self) -> Seq<u8> {
        self.sink().written()
    }

    /// How many bytes the sink takes in all, if it is bounded.
    pub open spec fn limit(&self) -> Option<nat> {
        self.sink().limit()
    }

    /// What every writing method does: with `self` the encoder before the
    /// call and `after` the encoder behind it, `chunks` were offered to the
    /// sink one after another, the first that did not fit ended the call
    /// with an error, and nothing else changed.
    pub open spec fn emits(&self, after: &Self, failed: Option<Error>, chunks: Seq<Seq<u8>>) -> bool {
        &&& after.inv()
        &&& after.limit() == self.limit()
        &&& after.choices() == self.choices()
        &&& write_outcome(self.written(), self.limit(), chunks, after.written(), failed)
    }

    /// An encoder with the choices given.
    pub fn new_with_options(writer: W, options: O) -> (s: Self)
        ensures
            s.sink() == writer,
            s.choices() == options,
    {
        Serializer { writer, options }
    }

    /// The same encoder, writing indices in place of names.
    pub fn packed_format(self) -> (s: Serializer<W, CustomSerializerOptions>)
        ensures
            s.sink() == self.sink(),
            s.choices().is_packed(),
            s.choices().is_enum_as_map() == self.choices().spec_enum_as_map(),
    {
        Serializer { writer: self.writer, options: self.options.to_custom().set_packed(true) }
    }

    /// The same encoder, writing enum variants with content as arrays.
    pub fn legacy_enums(self) -> (s: Serializer<W, CustomSerializerOptions>)
        ensures
            s.sink() == self.sink(),
            !s.choices().is_enum_as_map(),
            s.choices().is_packed() == self.choices().spec_packed(),
    {
        Serializer { writer: self.writer, options: self.options.to_custom().set_emum_as_map(false) }
    }

    /// Writes tag 55799, which marks what follows as CBOR.
    pub fn self_describe(&mut self) -> (r: Result<(), Error>)
        requires
            old(self).inv(),
        ensures
            old(self).emits(final(self), failure(r), seq![seq![0xd9u8, 0xd9u8, 0xf7u8]]),
    {
        let buf: [u8; 3] = [0xd9, 0xd9, 0xf7];
        assert(buf@ =~= seq![0xd9u8, 0xd9u8, 0xf7u8]);
        self.writer.write_all(buf.as_slice())
    }

    /// Gives the sink back.
    pub fn into_inner(self) -> (w: W)
        ensures
            w == self.sink(),
    {
        self.writer
    }

    /// Writes `first` and behind it the `width` lowest base-256 digits of
    /// `value`, most significant first, as one chunk.
    fn write_digits(&mut self, first: u8, value: u64, width: usize) -> (r: Result<(), Error>)
        requires
            old(self).inv(),
            width <= 8,
        ensures
            old(self).emits(
                final(self),
                failure(r),
                seq![seq![first] + be_bytes(value as nat, width as nat)],
            ),
    {
        let mut buf: [u8; 9] = [first, 0, 0, 0, 0, 0, 0, 0, 0];
        let mut rest = value;
        let mut i = width;
        proof {
            lemma_be_bytes_len(value as nat, width as nat);
            assert(buf@.subrange(width + 1, width + 1) =~= Seq::<u8>::empty());
            assert(be_bytes(rest as nat, i as nat) + buf@.subrange(i + 1, width + 1) =~= be_bytes(
                value as nat,
                width as nat,
            ));
        }
        while i > 0
            invariant
                i <= width <= 8,
                buf@[0] == first,
                be_bytes(value as nat, width as nat) == be_bytes(rest as nat, i as nat) + buf@.subrange(
                    i + 1,
                    width + 1,
                ),
            decreases i,
        {
            let ghost before = buf@;
            buf[i] = (rest % 256) as u8;
            proof {
                assert(buf@.subrange(i as int, width + 1) =~= seq![(rest % 256) as u8] + before.subrange(
                    i + 1,
                    width + 1,
                ));
                assert(be_bytes(rest as nat, i as nat) == be_bytes(
                    (rest / 256) as nat,
                    (i - 1) as nat,
                ).push((rest % 256) as u8));
                assert(be_bytes((rest / 256) as nat, (i - 1) as nat).push((rest % 256) as u8)
                    + before.subrange(i + 1, width + 1) =~= be_bytes(
                    (rest / 256) as nat,
                    (i - 1) as nat,
                ) + buf@.subrange(i as int, width + 1));
            }
            rest = rest / 256;
            i -= 1;
        }
        proof {
            assert(be_bytes(rest as nat, 0) =~= Seq::<u8>::empty());
            assert(buf@.subrange(0, width + 1) =~= seq![first] + buf@.subrange(1, width + 1));
        }
        self.writer.write_all(slice_subrange(buf.as_slice(), 0, 1 + width))
    }

    /// Writes the head of a data item: the major type and the argument, in
    /// the least width that holds the argument.
    pub fn write_u64(&mut self, major: u8, value: u64) -> (r: Result<(), Error>)
        requires
            old(self).inv(),
            major <= 7,
        ensures
            old(self).emits(final(self), failure(r), seq![head_bytes(major, value)]),
    {
        if value <= 0x17 {
            proof {
                assert(be_bytes(value as nat, 0) =~= Seq::<u8>::empty());
                assert(seq![initial_byte(major, value as u8)] + be_bytes(value as nat, 0)
                    =~= seq![initial_byte(major, value as u8)]);
            }
            self.write_digits(major * 32 + value as u8, value, 0)
        } else if value <= 0xff {
            self.write_digits(major * 32 + 24, value, 1)
        } else if value <= 0xffff {
            self.write_digits(major * 32 + 25, value, 2)
        } else if value <= 0xffff_ffff {
            self.write_digits(major * 32 + 26, value, 4)
        } else {
            self.write_digits(major * 32 + 27, value, 8)
        }
    }

    /// Offers one chunk to the sink.
    fn write_bytes(&mut self, buf: &[u8]) -> (r: Result<(), Error>)
        requires
            old(self).inv(),
        ensures
            old(self).emits(final(self), failure(r), seq![buf@]),
    {
        self.writer.write_all(buf)
    }

    /// Two writes in a row are one write of both lists of chunks; the
    /// second is made only when the first succeeded.
    pub proof fn lemma_emits_then(
        &self,
        mid: &Self,
        end: &Self,
        first_failed: Option<Error>,
        second_failed: Option<Error>,
        first: Seq<Seq<u8>>,
        second: Seq<Seq<u8>>,
    )
        requires
            self.emits(mid, first_failed, first),
            first_failed is None ==> mid.emits(end, second_failed, second),
        ensures
            first_failed is Some ==> self.emits(mid, first_failed, first + second),
            first_failed is None ==> self.emits(end, second_failed, first + second),
    {
        lemma_written_after_append(self.written(), self.limit(), first, second);
    }

    /// Opens an array (major type 4) or a map (major type 5): with a length
    /// its head, without one the head of indefinite length, for which the
    /// collection then owes a break byte.
    pub fn serialize_collection<'a>(&'a mut self, major: u8, len: Option<usize>) -> (r: Result<
        CollectionSerializer<'a, W, O>,
        Error,
    >)
        requires
            old(self).inv(),
            major == 4 || major == 5,
        ensures
            match r {
                Ok(c) => c.needs_eof == (len is None) && old(self).emits(
                    &*c.ser,
                    None,
                    seq![collection_head(major, len)],
                ) && *final(self) == *final(c.ser),
                Err(e) => old(self).emits(final(self), Some(e), seq![collection_head(major, len)]),
            },
    {
        let needs_eof = match len {
            Some(len) => {
                match self.write_u64(major, len as u64) {
                    Ok(()) => {},
                    Err(e) => {
                        return Err(e);
                    },
                }
                false
            },
            None => {
                let buf: [u8; 1] = [major * 32 + 31];
                assert(buf@ =~= indefinite_head(major));
                match self.write_bytes(buf.as_slice()) {
                    Ok(()) => {},
                    Err(e) => {
                        return Err(e);
                    },
                }
                true
            },
        };
        Ok(CollectionSerializer { ser: self, needs_eof })
    }

    /// Writes a boolean: `0xf5` for true, `0xf4` for false.
    pub fn serialize_bool(&mut self, value: bool) -> (r: Result<(), Error>)
        requires
            old(self).inv(),
        ensures
            old(self).emits(final(self), failure(r), seq![seq![if value { 0xf5u8 } else { 0xf4u8 }]]),
    {
        let buf: [u8; 1] = [if value { 0xf5 } else { 0xf4 }];
        assert(buf@ =~= seq![if value { 0xf5u8 } else { 0xf4u8 }]);
        self.write_bytes(buf.as_slice())
    }

    /// Writes an integer of 8 bits.
    pub fn serialize_i8(&mut self, value: i8) -> (r: Result<(), Error>)
        requires
            old(self).inv(),
        ensures
            old(self).emits(final(self), failure(r), seq![integer_head(value as int)]),
    {
        self.serialize_i64(value as i64)
    }

    /// Writes an integer of 16 bits.
    pub fn serialize_i16(&mut self, value: i16) -> (r: Result<(), Error>)
        requires
            old(self).inv(),
        ensures
            old(self).emits(final(self), failure(r), seq![integer_head(value as int)]),
    {
        self.serialize_i64(value as i64)
    }

    /// Writes an integer of 32 bits.
    pub fn serialize_i32(&mut self, value: i32) -> (r: Result<(), Error>)
        requires
            old(self).inv(),
        ensures
            old(self).emits(final(self), failure(r), seq![integer_head(value as int)]),
    {
        self.serialize_i64(value as i64)
    }

    /// Writes an integer of 64 bits: major type 0 if it is not negative,
    /// else major type 1 with the argument `-1 - value`.
    pub fn serialize_i64(&mut self, value: i64) -> (r: Result<(), Error>)
        requires
            old(self).inv(),
        ensures
            old(self).emits(final(self), failure(r), seq![integer_head(value as int)]),
    {
        if value < 0 {
            self.write_u64(1, (-(value + 1)) as u64)
        } else {
            self.write_u64(0, value as u64)
        }
    }

    /// Writes an integer of 128 bits if its magnitude fits 64 bits; else
    /// writes nothing and complains in words.
    pub fn serialize_i128(&mut self, value: i128) -> (r: Result<(), Error>)
        requires
            old(self).inv(),
        ensures
            integer_in_range(value as int) ==> old(self).emits(
                final(self),
                failure(r),
                seq![integer_head(value as int)],
            ),
            !integer_in_range(value as int) ==> *final(self) == *old(self) && no_encoding(r),
    {
        if value < 0 {
            if -(value + 1) > 0xffff_ffff_ffff_ffffi128 {
                return Err(Error::message("The number can't be stored in CBOR"));
            }
            self.write_u64(1, (-(value + 1)) as u64)
        } else {
            if value > 0xffff_ffff_ffff_ffffi128 {
                return Err(Error::message("The number can't be stored in CBOR"));
            }
            self.write_u64(0, value as u64)
        }
    }

    /// Writes an unsigned integer of 8 bits.
    pub fn serialize_u8(&mut self, value: u8) -> (r: Result<(), Error>)
        requires
            old(self).inv(),
        ensures
            old(self).emits(final(self), failure(r), seq![head_bytes(0, value as u64)]),
    {
        self.write_u64(0, value as u64)
    }

    /// Writes an unsigned integer of 16 bits.
    pub fn serialize_u16(&mut self, value: u16) -> (r: Result<(), Error>)
        requires
            old(self).inv(),
        ensures
            old(self).emits(final(self), failure(r), seq![head_bytes(0, value as u64)]),
    {
        self.write_u64(0, value as u64)
    }

    /// Writes an unsigned integer of 32 bits.
    pub fn serialize_u32(&mut self, value: u32) -> (r: Result<(), Error>)
        requires
            old(self).inv(),
        ensures
            old(self).emits(final(self), failure(r), seq![head_bytes(0, value as u64)]),
    {
        self.write_u64(0, value as u64)
    }

    /// Writes an unsigned integer of 64 bits.
    pub fn serialize_u64(&mut self, value: u64) -> (r: Result<(), Error>)
        requires
            old(self).inv(),
        ensures
            old(self).emits(final(self), failure(r), seq![head_bytes(0, value)]),
    {
        self.write_u64(0, value)
    }

    /// Writes an unsigned integer of 128 bits if it fits 64 bits; else
    /// writes nothing and complains in words.
    pub fn serialize_u128(&mut self, value: u128) -> (r: Result<(), Error>)
        requires
            old(self).inv(),
        ensures
            value <= u64::MAX ==> old(self).emits(
                final(self),
                failure(r),
                seq![head_bytes(0, value as u64)],
            ),
            value > u64::MAX ==> *final(self) == *old(self) && no_encoding(r),
    {
        if value > 0xffff_ffff_ffff_ffffu128 {
            return Err(Error::message("The number can't be stored in CBOR"));
        }
        self.write_u64(0, value as u64)
    }

    /// Writes a float in the width it was narrowed to.
    pub fn write_float(&mut self, value: Float) -> (r: Result<(), Error>)
        requires
            old(self).inv(),
        ensures
            old(self).emits(final(self), failure(r), seq![float_bytes(value)]),
    {
        match value {
            Float::Half(bits) => self.write_digits(0xf9, bits as u64, 2),
            Float::Single(bits) => self.write_digits(0xfa, bits as u64, 4),
            Float::Double(bits) => self.write_digits(0xfb, bits, 8),
        }
    }

    /// Writes a float of single precision, given by its bit pattern, in the
    /// least width that loses nothing. `half` holds the bit pattern of the
    /// same number in half precision, if there is one.
    pub fn serialize_f32(&mut self, bits: u32, half: Option<u16>) -> (r: Result<(), Error>)
        requires
            old(self).inv(),
        ensures
            old(self).emits(final(self), failure(r), seq![float_bytes(narrow_single(bits, half))]),
    {
        self.write_float(Float::from_single(bits, half))
    }

    /// Writes a float of double precision, given by its bit pattern, in the
    /// least width that loses nothing. `single` and `half` hold the bit
    /// patterns of the same number in single and in half precision, as far
    /// as there are such.
    pub fn serialize_f64(&mut self, bits: u64, single: Option<u32>, half: Option<u16>) -> (r: Result<
        (),
        Error,
    >)
        requires
            old(self).inv(),
        ensures
            old(self).emits(
                final(self),
                failure(r),
                seq![float_bytes(narrow_double(bits, single, half))],
            ),
    {
        self.write_float(Float::from_double(bits, single, half))
    }

    /// Writes a character as a text string of its UTF-8 form.
    pub fn serialize_char(&mut self, value: char) -> (r: Result<(), Error>)
        requires
            old(self).inv(),
        ensures
            old(self).emits(final(self), failure(r), text_chunks(encode_utf8(seq![value]))),
    {
        let mut buf: [u8; 4] = [0, 0, 0, 0];
        let s = encode_char(value, &mut buf);
        self.serialize_str(s)
    }

    /// Writes a text string: the head with its length in bytes, then its
    /// UTF-8 form.
    pub fn serialize_str(&mut self, value: &str) -> (r: Result<(), Error>)
        requires
            old(self).inv(),
        ensures
            old(self).emits(final(self), failure(r), text_chunks(value.spec_bytes())),
    {
        let bytes = value.as_bytes();
        let ghost before = *self;
        match self.write_u64(3, bytes.len() as u64) {
            Ok(()) => {},
            Err(e) => {
                proof {
                    before.lemma_emits_then(
                        self,
                        self,
                        Some(e),
                        None,
                        seq![head_bytes(3, bytes@.len() as u64)],
                        seq![bytes@],
                    );
                    assert(seq![head_bytes(3, bytes@.len() as u64)] + seq![bytes@] =~= text_chunks(
                        bytes@,
                    ));
                }
                return Err(e);
            },
        }
        let ghost mid = *self;
        let r = self.write_bytes(bytes);
        proof {
            before.lemma_emits_then(
                &mid,
                self,
                None,
                failure(r),
                seq![head_bytes(3, bytes@.len() as u64)],
                seq![bytes@],
            );
            assert(seq![head_bytes(3, bytes@.len() as u64)] + seq![bytes@] =~= text_chunks(bytes@));
        }
        r
    }

    /// Writes a byte string: the head with its length, then the bytes.
    pub fn serialize_bytes(&mut self, value: &[u8]) -> (r: Result<(), Error>)
        requires
            old(self).inv(),
        ensures
            old(self).emits(final(self), failure(r), bytes_chunks(value@)),
    {
        let ghost before = *self;
        match self.write_u64(2, value.len() as u64) {
            Ok(()) => {},
            Err(e) => {
                proof {
                    before.lemma_emits_then(
                        self,
                        self,
                        Some(e),
                        None,
                        seq![head_bytes(2, value@.len() as u64)],
                        seq![value@],
                    );
                    assert(seq![head_bytes(2, value@.len() as u64)] + seq![value@] =~= bytes_chunks(
                        value@,
                    ));
                }
                return Err(e);
            },
        }
        let ghost mid = *self;
        let r = self.write_bytes(value);
        proof {
            before.lemma_emits_then(
                &mid,
                self,
                None,
                failure(r),
                seq![head_bytes(2, value@.len() as u64)],
                seq![value@],
            );
            assert(seq![head_bytes(2, value@.len() as u64)] + seq![value@] =~= bytes_chunks(value@));
        }
        r
    }

    /// Writes the unit value as null.
    pub fn serialize_unit(&mut self) -> (r: Result<(), Error>)
        requires
            old(self).inv(),
        ensures
            old(self).emits(final(self), failure(r), seq![seq![0xf6u8]]),
    {
        self.serialize_none()
    }

    /// Writes an absent value as null, `0xf6`.
    pub fn serialize_none(&mut self) -> (r: Result<(), Error>)
        requires
            old(self).inv(),
        ensures
            old(self).emits(final(self), failure(r), seq![seq![0xf6u8]]),
    {
        let buf: [u8; 1] = [0xf6];
        assert(buf@ =~= seq![0xf6u8]);
        self.write_bytes(buf.as_slice())
    }

    /// Writes a struct without fields as null, whatever its name.
    pub fn serialize_unit_struct(&mut self, _name: &str) -> (r: Result<(), Error>)
        requires
            old(self).inv(),
        ensures
            old(self).emits(final(self), failure(r), seq![seq![0xf6u8]]),
    {
        self.serialize_unit()
    }

    /// Writes an enum variant without content: its index where names are
    /// packed, else its name.
    pub fn serialize_unit_variant(&mut self, _name: &str, variant_index: u32, variant: &str) -> (r:
        Result<(), Error>)
        requires
            old(self).inv(),
        ensures
            old(self).emits(
                final(self),
                failure(r),
                variant_chunks(old(self).choices().spec_packed(), variant_index, variant.spec_bytes()),
            ),
    {
        if self.options.packed() {
            self.serialize_u32(variant_index)
        } else {
            self.serialize_str(variant)
        }
    }

    /// Writes what stands before the content of a newtype: nothing, unless
    /// the newtype bears the name that marks a tagged value and a tag is
    /// pending, which is then written as a head of major type 6.
    pub fn serialize_newtype_struct(&mut self, name: &str, tag: Option<u64>) -> (r: Result<(), Error>)
        requires
            old(self).inv(),
        ensures
            old(self).emits(final(self), failure(r), newtype_chunks(name.spec_bytes(), tag)),
    {
        if is_tag_name(name) {
            if let Some(tag) = tag {
                return self.write_u64(6, tag);
            }
        }
        Ok(())
    }

    /// Writes what stands before the content of an enum variant that wraps
    /// one value: as a map, the head of a map of one entry, as an array, the
    /// head of an array of two elements; then the variant as a unit variant
    /// is written.
    pub fn serialize_newtype_variant(&mut self, name: &str, variant_index: u32, variant: &str) -> (r:
        Result<(), Error>)
        requires
            old(self).inv(),
        ensures
            old(self).emits(
                final(self),
                failure(r),
                newtype_variant_chunks(
                    old(self).choices().spec_enum_as_map(),
                    old(self).choices().spec_packed(),
                    variant_index,
                    variant.spec_bytes(),
                ),
            ),
    {
        let ghost before = *self;
        if self.options.enum_as_map() {
            let ghost first = seq![head_bytes(5, 1)];
            let ghost second = variant_chunks(
                before.choices().spec_packed(),
                variant_index,
                variant.spec_bytes(),
            );
            match self.write_u64(5, 1u64) {
                Ok(()) => {},
                Err(e) => {
                    proof {
                        before.lemma_emits_then(self, self, Some(e), None, first, second);
                    }
                    return Err(e);
                },
            }
            let ghost mid = *self;
            let r = self.serialize_unit_variant(name, variant_index, variant);
            proof {
                before.lemma_emits_then(&mid, self, None, failure(r), first, second);
            }
            r
        } else {
            let ghost first = seq![seq![0x82u8]];
            let ghost second = variant_chunks(
                before.choices().spec_packed(),
                variant_index,
                variant.spec_bytes(),
            );
            let buf: [u8; 1] = [0x82];
            assert(buf@ =~= seq![0x82u8]);
            match self.write_bytes(buf.as_slice()) {
                Ok(()) => {},
                Err(e) => {
                    proof {
                        before.lemma_emits_then(self, self, Some(e), None, first, second);
                    }
                    return Err(e);
                },
            }
            let ghost mid = *self;
            let r = self.serialize_unit_variant(name, variant_index, variant);
            proof {
                before.lemma_emits_then(&mid, self, None, failure(r), first, second);
            }
            r
        }
    }

    /// Opens an array, of `len` elements or of indefinite length.
    pub fn serialize_seq<'a>(&'a mut self, len: Option<usize>) -> (r: Result<
        CollectionSerializer<'a, W, O>,
        Error,
    >)
        requires
            old(self).inv(),
        ensures
            match r {
                Ok(c) => c.needs_eof == (len is None) && old(self).emits(
                    &*c.ser,
                    None,
                    seq![collection_head(4, len)],
                ) && *final(self) == *final(c.ser),
                Err(e) => old(self).emits(final(self), Some(e), seq![collection_head(4, len)]),
            },
    {
        self.serialize_collection(4, len)
    }

    /// Opens a tuple: an array of `len` elements.
    pub fn serialize_tuple(&mut self, len: usize) -> (r: Result<(), Error>)
        requires
            old(self).inv(),
        ensures
            old(self).emits(final(self), failure(r), seq![head_bytes(4, len as u64)]),
    {
        self.write_u64(4, len as u64)
    }

    /// Opens a tuple struct: an array of `len` elements, whatever its name.
    pub fn serialize_tuple_struct(&mut self, _name: &str, len: usize) -> (r: Result<(), Error>)
        requires
            old(self).inv(),
        ensures
            old(self).emits(final(self), failure(r), seq![head_bytes(4, len as u64)]),
    {
        self.serialize_tuple(len)
    }

    /// Opens an enum variant that holds a tuple of `len` elements: as a
    /// map, the head of a map of one entry, the variant as a unit variant is
    /// written and the head of an array of `len`; as an array, the head of
    /// an array of `len + 1` and the variant as a unit variant is written.
    pub fn serialize_tuple_variant(
        &mut self,
        name: &str,
        variant_index: u32,
        variant: &str,
        len: usize,
    ) -> (r: Result<(), Error>)
        requires
            old(self).inv(),
            len < usize::MAX,
        ensures
            old(self).emits(
                final(self),
                failure(r),
                tuple_variant_chunks(
                    old(self).choices().spec_enum_as_map(),
                    old(self).choices().spec_packed(),
                    variant_index,
                    variant.spec_bytes(),
                    len,
                ),
            ),
    {
        let ghost before = *self;
        if self.options.enum_as_map() {
            let ghost first = seq![head_bytes(5, 1)];
            let ghost second = variant_chunks(
                before.choices().spec_packed(),
                variant_index,
                variant.spec_bytes(),
            );
            let ghost third = seq![head_bytes(4, len as u64)];
            match self.write_u64(5, 1u64) {
                Ok(()) => {},
                Err(e) => {
                    proof {
                        before.lemma_emits_then(self, self, Some(e), None, first, second + third);
                    }
                    return Err(e);
                },
            }
            let ghost mid = *self;
            match self.serialize_unit_variant(name, variant_index, variant) {
                Ok(()) => {},
                Err(e) => {
                    proof {
                        mid.lemma_emits_then(self, self, Some(e), None, second, third);
                        before.lemma_emits_then(&mid, self, None, Some(e), first, second + third);
                    }
                    return Err(e);
                },
            }
            let ghost late = *self;
            let r = self.serialize_tuple(len);
            proof {
                mid.lemma_emits_then(&late, self, None, failure(r), second, third);
                before.lemma_emits_then(&mid, self, None, failure(r), first, second + third);
            }
            r
        } else {
            let ghost first = seq![head_bytes(4, (len + 1) as u64)];
            let ghost second = variant_chunks(
                before.choices().spec_packed(),
                variant_index,
                variant.spec_bytes(),
            );
            match self.write_u64(4, (len + 1) as u64) {
                Ok(()) => {},
                Err(e) => {
                    proof {
                        before.lemma_emits_then(self, self, Some(e), None, first, second);
                    }
                    return Err(e);
                },
            }
            let ghost mid = *self;
            let r = self.serialize_unit_variant(name, variant_index, variant);
            proof {
                before.lemma_emits_then(&mid, self, None, failure(r), first, second);
            }
            r
        }
    }

    /// Opens a map, of `len` entries or of indefinite length.
    pub fn serialize_map<'a>(&'a mut self, len: Option<usize>) -> (r: Result<
        CollectionSerializer<'a, W, O>,
        Error,
    >)
        requires
            old(self).inv(),
        ensures
            match r {
                Ok(c) => c.needs_eof == (len is None) && old(self).emits(
                    &*c.ser,
                    None,
                    seq![collection_head(5, len)],
                ) && *final(self) == *final(c.ser),
                Err(e) => old(self).emits(final(self), Some(e), seq![collection_head(5, len)]),
            },
    {
        self.serialize_collection(5, len)
    }

    /// Opens a struct: a map of `len` entries, whatever its name. The
    /// fields count from 0.
    pub fn serialize_struct<'a>(&'a mut self, _name: &str, len: usize) -> (r: Result<
        StructSerializer<'a, W, O>,
        Error,
    >)
        requires
            old(self).inv(),
        ensures
            match r {
                Ok(c) => c.idx == 0 && old(self).emits(&*c.ser, None, seq![head_bytes(5, len as u64)])
                    && *final(self) == *final(c.ser),
                Err(e) => old(self).emits(final(self), Some(e), seq![head_bytes(5, len as u64)]),
            },
    {
        match self.write_u64(5, len as u64) {
            Ok(()) => {},
            Err(e) => {
                return Err(e);
            },
        }
        Ok(StructSerializer { ser: self, idx: 0 })
    }

    /// Opens an enum variant that holds a struct of `len` fields: the head
    /// of a map of one entry, or that of an array of two elements; the
    /// variant as a unit variant is written; the head of a map of `len`.
    pub fn serialize_struct_variant<'a>(
        &'a mut self,
        name: &str,
        variant_index: u32,
        variant: &str,
        len: usize,
    ) -> (r: Result<StructSerializer<'a, W, O>, Error>)
        requires
            old(self).inv(),
        ensures
            match r {
                Ok(c) => c.idx == 0 && old(self).emits(
                    &*c.ser,
                    None,
                    struct_variant_chunks(
                        old(self).choices().spec_enum_as_map(),
                        old(self).choices().spec_packed(),
                        variant_index,
                        variant.spec_bytes(),
                        len,
                    ),
                ) && *final(self) == *final(c.ser),
                Err(e) => old(self).emits(
                    final(self),
                    Some(e),
                    struct_variant_chunks(
                        old(self).choices().spec_enum_as_map(),
                        old(self).choices().spec_packed(),
                        variant_index,
                        variant.spec_bytes(),
                        len,
                    ),
                ),
            },
    {
        let ghost before = *self;
        let ghost first = seq![
            if before.choices().spec_enum_as_map() {
                head_bytes(5, 1)
            } else {
                seq![0x82u8]
            },
        ];
        let ghost second = variant_chunks(
            before.choices().spec_packed(),
            variant_index,
            variant.spec_bytes(),
        );
        let ghost third = seq![head_bytes(5, len as u64)];
        let opened = if self.options.enum_as_map() {
            self.write_u64(5, 1u64)
        } else {
            let buf: [u8; 1] = [0x82];
            assert(buf@ =~= seq![0x82u8]);
            self.write_bytes(buf.as_slice())
        };
        match opened {
            Ok(()) => {},
            Err(e) => {
                proof {
                    before.lemma_emits_then(self, self, Some(e), None, first, second + third);
                }
                return Err(e);
            },
        }
        let ghost mid = *self;
        match self.serialize_unit_variant(name, variant_index, variant) {
            Ok(()) => {},
            Err(e) => {
                proof {
                    mid.lemma_emits_then(self, self, Some(e), None, second, third);
                    before.lemma_emits_then(&mid, self, None, Some(e), first, second + third);
                }
                return Err(e);
            },
        }
        let ghost late = *self;
        match self.write_u64(5, len as u64) {
            Ok(()) => {},
            Err(e) => {
                proof {
                    mid.lemma_emits_then(&late, self, None, Some(e), second, third);
                    before.lemma_emits_then(&mid, self, None, Some(e), first, second + third);
                }
                return Err(e);
            },
        }
        proof {
            mid.lemma_emits_then(&late, self, None, None, second, third);
            before.lemma_emits_then(&mid, self, None, None, first, second + third);
        }
        Ok(StructSerializer { ser: self, idx: 0 })
    }

    /// CBOR is not for human readers.
    pub fn is_human_readable(&self) -> (b: bool)
        ensures
            !b,
    {
        false
    }
}

/// A float as it stands on the wire: its width, and the IEEE 754 bit
/// pattern in that width.
#[derive(Debug, Clone, Copy, PartialEq, Eq, Structural)]
pub enum Float {
    /// Half precision, 16 bits.
    Half(u16),
    /// Single precision, 32 bits.
    Single(u32),
    /// Double precision, 64 bits.
    Double(u64),
}

/// The bytes of a float: `0xf9`, `0xfa` or `0xfb` by its width, then its bit
/// pattern, most significant byte first.
pub open spec fn float_bytes(value: Float) -> Seq<u8> {
    match value {
        Float::Half(bits) => seq![0xf9u8] + be_bytes(bits as nat, 2),
        Float::Single(bits) => seq![0xfau8] + be_bytes(bits as nat, 4),
        Float::Double(bits) => seq![0xfbu8] + be_bytes(bits as nat, 8),
    }
}

/// The half-precision form of an infinity or a NaN: the infinities keep
/// their sign, every NaN becomes the one quiet NaN `0x7e00`.
pub open spec fn canonical_half(infinite: bool, negative: bool) -> u16 {
    if infinite {
        if negative {
            0xfc00
        } else {
            0x7c00
        }
    } else {
        0x7e00
    }
}

/// The narrowest float that holds a number of single precision: the
/// infinities and NaN go to half precision in their canonical form; any
/// other number goes to half precision if `half` says that it has that form,
/// and stays as it is if not.
pub open spec fn narrow_single(bits: u32, half: Option<u16>) -> Float {
    let magnitude = bits % 0x8000_0000;
    if magnitude >= 0x7f80_0000 {
        Float::Half(canonical_half(magnitude == 0x7f80_0000, bits >= 0x8000_0000))
    } else {
        match half {
            Some(h) => Float::Half(h),
            None => Float::Single(bits),
        }
    }
}

/// The narrowest float that holds a number of double precision: the
/// infinities and NaN go to half precision in their canonical form; any
/// other number is narrowed as its single-precision form is, if `single`
/// says that it has one, and stays as it is if not.
pub open spec fn narrow_double(bits: u64, single: Option<u32>, half: Option<u16>) -> Float {
    let magnitude = bits % 0x8000_0000_0000_0000;
    if magnitude >= 0x7ff0_0000_0000_0000 {
        Float::Half(
            canonical_half(magnitude == 0x7ff0_0000_0000_0000, bits >= 0x8000_0000_0000_0000),
        )
    } else {
        match single {
            Some(s) => narrow_single(s, half),
            None => Float::Double(bits),
        }
    }
}

impl Float {
    /// Narrows a number of single precision.
    pub fn from_single(bits: u32, half: Option<u16>) -> (f: Float)
        ensures
            f == narrow_single(bits, half),
    {
        let magnitude = bits % 0x8000_0000;
        if magnitude == 0x7f80_0000 {
            if bits >= 0x8000_0000 {
                Float::Half(0xfc00)
            } else {
                Float::Half(0x7c00)
            }
        } else if magnitude > 0x7f80_0000 {
            Float::Half(0x7e00)
        } else {
            match half {
                Some(h) => Float::Half(h),
                None => Float::Single(bits),
            }
        }
    }

    /// Narrows a number of double precision.
    pub fn from_double(bits: u64, single: Option<u32>, half: Option<u16>) -> (f: Float)
        ensures
            f == narrow_double(bits, single, half),
    {
        let magnitude = bits % 0x8000_0000_0000_0000;
        if magnitude == 0x7ff0_0000_0000_0000 {
            if bits >= 0x8000_0000_0000_0000 {
                Float::Half(0xfc00)
            } else {
                Float::Half(0x7c00)
            }
        } else if magnitude > 0x7ff0_0000_0000_0000 {
            Float::Half(0x7e00)
        } else {
            match single {
                Some(s) => Float::from_single(s, half),
                None => Float::Double(bits),
            }
        }
    }
}

/// What is written for a text string with the given UTF-8 form.
pub open spec fn text_chunks(bytes: Seq<u8>) -> Seq<Seq<u8>> {
    seq![head_bytes(3, bytes.len() as u64), bytes]
}

/// What is written for a byte string.
pub open spec fn bytes_chunks(bytes: Seq<u8>) -> Seq<Seq<u8>> {
    seq![head_bytes(2, bytes.len() as u64), bytes]
}

/// What is written before the content of a newtype with the given name
/// while `tag` is pending.
pub open spec fn newtype_chunks(name: Seq<u8>, tag: Option<u64>) -> Seq<Seq<u8>> {
    if name == tag_name_bytes() && tag is Some {
        seq![head_bytes(6, tag.unwrap())]
    } else {
        Seq::empty()
    }
}

/// What is written before the content of a variant that wraps one value:
/// the head of a map of one entry, or that of an array of two elements,
/// and the variant, by its index where names are packed and by its name
/// where not.
pub open spec fn newtype_variant_chunks(
    enum_as_map: bool,
    packed: bool,
    variant_index: u32,
    variant: Seq<u8>,
) -> Seq<Seq<u8>> {
    if enum_as_map {
        seq![head_bytes(5, 1)] + variant_chunks(packed, variant_index, variant)
    } else {
        seq![seq![0x82u8]] + variant_chunks(packed, variant_index, variant)
    }
}

/// What is written before the elements of a variant that holds a tuple:
/// as a map, the head of a map of one entry, the variant and the head of
/// an array of `len`; as an array, the head of an array of `len + 1` and
/// the variant. The variant goes by its index where names are packed and
/// by its name where not.
pub open spec fn tuple_variant_chunks(
    enum_as_map: bool,
    packed: bool,
    variant_index: u32,
    variant: Seq<u8>,
    len: usize,
) -> Seq<Seq<u8>> {
    if enum_as_map {
        seq![head_bytes(5, 1)] + (variant_chunks(packed, variant_index, variant) + seq![
            head_bytes(4, len as u64),
        ])
    } else {
        seq![head_bytes(4, (len + 1) as u64)] + variant_chunks(packed, variant_index, variant)
    }
}

/// What is written before the fields of a variant that holds a struct.
pub open spec fn struct_variant_chunks(
    enum_as_map: bool,
    packed: bool,
    variant_index: u32,
    variant: Seq<u8>,
    len: usize,
) -> Seq<Seq<u8>> {
    seq![
        if enum_as_map {
            head_bytes(5, 1)
        } else {
            seq![0x82u8]
        },
    ] + (variant_chunks(packed, variant_index, variant) + seq![head_bytes(5, len as u64)])
}

/// `char::encode_utf8`: writes the UTF-8 form of `c` into `buf`, which is
/// large enough for any character, and returns it as a string of that one
/// character.
#[verifier::external_body]
fn encode_char<'a>(c: char, buf: &'a mut [u8; 4]) -> (s: &'a str)
    ensures
        s@ == seq![c],
{
    c.encode_utf8(buf)
}

/// Whether `name` is the name that marks a newtype as a tagged value.
pub fn is_tag_name(name: &str) -> (b: bool)
    ensures
        b == (name.spec_bytes() == tag_name_bytes()),
{
    let bytes = name.as_bytes();
    let expected: [u8; 9] = [0x00, 0x63, 0x62, 0x6f, 0x72, 0x5f, 0x74, 0x61, 0x67];
    assert(expected@ =~= tag_name_bytes());
    if bytes.len() != 9 {
        return false;
    }
    let mut i: usize = 0;
    while i < 9
        invariant
            i <= 9,
            bytes@.len() == 9,
            bytes@ == name.spec_bytes(),
            expected@ == tag_name_bytes(),
            forall|j: int| 0 <= j < i ==> bytes@[j] == expected@[j],
        decreases 9 - i,
    {
        if bytes[i] != expected[i] {
            assert(expected@[i as int] == tag_name_bytes()[i as int]);
            assert(name.spec_bytes()[i as int] != tag_name_bytes()[i as int]);
            return false;
        }
        i += 1;
    }
    assert(bytes@ =~= tag_name_bytes());
    true
}

/// A struct that is being written.
pub struct StructSerializer<'a, W, O> {
    /// The encoder the fields go to.
    pub ser: &'a mut Serializer<W, O>,
    /// The index of the field that comes next.
    pub idx: u32,
}

impl<'a, W: Write, O: SerializerOptions> StructSerializer<'a, W, O> {
    /// Writes the key of the next field, its index where names are packed
    /// and its name where not, and counts the field. Its value is due next.
    pub fn serialize_field_inner(&mut self, key: &str) -> (r: Result<(), Error>)
        requires
            old(self).ser.inv(),
            old(self).idx < u32::MAX,
        ensures
            old(self).ser.emits(
                &*final(self).ser,
                failure(r),
                variant_chunks(old(self).ser.choices().spec_packed(), old(self).idx, key.spec_bytes()),
            ),
            *final(final(self).ser) == *final(old(self).ser),
            r is Ok ==> final(self).idx == old(self).idx + 1,
    {
        if self.ser.options.packed() {
            match self.ser.serialize_u32(self.idx) {
                Ok(()) => {},
                Err(e) => {
                    return Err(e);
                },
            }
        } else {
            match self.ser.serialize_str(key) {
                Ok(()) => {},
                Err(e) => {
                    return Err(e);
                },
            }
        }
        self.idx += 1;
        Ok(())
    }

    /// Counts a field that is left out.
    pub fn skip_field_inner(&mut self, _key: &str) -> (r: Result<(), Error>)
        requires
            old(self).idx < u32::MAX,
        ensures
            r is Ok,
            final(self).idx == old(self).idx + 1,
            *final(self).ser == *old(self).ser,
            *final(final(self).ser) == *final(old(self).ser),
    {
        self.idx += 1;
        Ok(())
    }

    /// Closes the struct. Its length was written ahead, so nothing is left
    /// to write.
    pub fn end_inner(self) -> (r: Result<(), Error>)
        ensures
            r is Ok,
            *final(self.ser) == *old(self.ser),
    {
        Ok(())
    }
}

impl<'a, W: Write, O: SerializerOptions> CollectionSerializer<'a, W, O> {
    /// Closes the collection: writes the break byte if its length was left
    /// open, and nothing if not.
    pub fn end_inner(self) -> (r: Result<(), Error>)
        requires
            old(self.ser).inv(),
        ensures
            old(self.ser).emits(
                final(self.ser),
                failure(r),
                if self.needs_eof {
                    seq![seq![0xffu8]]
                } else {
                    Seq::empty()
                },
            ),
    {
        if self.needs_eof {
            let buf: [u8; 1] = [0xff];
            assert(buf@ =~= seq![0xffu8]);
            self.ser.write_bytes(buf.as_slice())
        } else {
            Ok(())
        }
    }
}

/// An array or a map that is being written.
pub struct CollectionSerializer<'a, W, O> {
    /// The encoder the elements go to.
    pub ser: &'a mut Serializer<W, O>,
    /// Whether the length was left open, so that a break byte is owed.
    pub needs_eof: bool,
}

/// The head that opens an array or a map: with a length the head that
/// holds it, without one the head of indefinite length.
pub open spec fn collection_head(major: u8, len: Option<usize>) -> Seq<u8> {
    match len {
        Some(n) => head_bytes(major, n as u64),
        None => indefinite_head(major),
    }
}

/// Whether a result is the complaint about a number that has no encoding.
pub open spec fn no_encoding(r: Result<(), Error>) -> bool {
    r matches Err(e) && e.offset == 0 && (e.code matches ErrorCode::Message(s) && s@
        == "The number can't be stored in CBOR"@)
}

} // verus!
